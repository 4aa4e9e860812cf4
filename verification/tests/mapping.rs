use vpr_extra::config::Config;
use vpr_extra::types::{Point, XY, NodeMetaType, Source, Sink, Track, Route, RouteNet, LogicBlock, Model, Placement, PortFlow};
use vpr_extra::bitstream::{build_tile_grid, try_build_bitstream, build_bitstream_logic_blocks, plan_bitstream, BitWrite, TileField};
use vpr_extra::timing::{build_delay_event_graph, try_build_delay_event_graph, get_inter_ble_critical_path_delay,
    try_get_async_inter_latch_crit_path_delay, try_get_sync_inter_latch_crit_path_delay, get_async_inter_latch_crit_path_delay,
    get_sync_inter_latch_crit_path_delay, NamedDelayEventGraphList, RouteEvent, RouteEventEnum, TimingError};
use vpr_extra::model::NoDangle;
use vpr_extra::tile::{Tile, ConBlkSection};

fn config() -> Config {
    let mut cfg = Config::default();
    cfg.channel_width = 2;
    cfg.n_rail = 1;
    cfg.lut_k = 2;
    cfg.ble_clk_en_size = 1;
    cfg.fpga_width = 3;
    cfg.fpga_delay_pad_exit = 1;
    cfg.fpga_delay_ble_exit = 2;
    cfg.fpga_delay_ble_enter = 3;
    cfg.fpga_delay_pad_enter = 4;
    cfg.fpga_delay_trackswitch = 5;
    cfg
}

fn bits(tiles: &Vec<Vec<Tile>>) -> Vec<Vec<Vec<bool>>> {
    tiles.iter().map(|row| row.iter().map(|t| t.bitstream()).collect()).collect()
}

fn count_on(tiles: &Vec<Vec<Tile>>) -> usize {
    bits(tiles).iter().flatten().flatten().filter(|b| **b).count()
}

fn pad_net() -> RouteNet {
    RouteNet {
        name: String::from("in"),
        src: Source(Point(0, 1), NodeMetaType::Pad, 0, 0),
        route_tree: vec![Route {
            tracks: vec![
                Track { id: 10, nr: 0, xy: Point(0, 1), orientation: XY::Y },
                Track { id: 11, nr: 0, xy: Point(0, 1), orientation: XY::X },
            ],
            sink: Some(Sink(Point(1, 1), NodeMetaType::Pin, 0, 1)),
            from_opin: true,
        }],
    }
}

fn place() -> Placement {
    Placement { entries: vec![(String::from("in"), Point(0, 1)), (String::from("s"), Point(1, 1))] }
}

fn model() -> Model {
    Model {
        name: String::from("m"),
        inputs: vec![String::from("in")],
        outputs: vec![String::from("s")],
        latched: vec![],
        logic: vec![LogicBlock {
            inputs: vec![String::from("in"), String::from("in")],
            output: String::from("s"),
            truth_table: vec![false, false, true, true],
            truth_idxs: vec![2, 3],
        }],
    }
}

#[test]
fn fresh_grid_is_all_off() {
    let cfg = config();
    let tiles = build_tile_grid(&cfg);
    assert_eq!(tiles.len(), 3);
    for (y, row) in tiles.iter().enumerate() {
        assert_eq!(row.len(), 3);
        for (x, t) in row.iter().enumerate() {
            assert_eq!(t.xy, Point(x as u32, y as u32));
            assert_eq!(t.sw_blk.0.len(), 12);
            assert_eq!(t.con_blk_top.len(), 8);
            assert_eq!(t.con_blk_right.len(), 8);
            assert_eq!(t.ble.len(), 5);
        }
    }
    assert_eq!(count_on(&tiles), 0);
}

#[test]
fn look_up_tables_go_to_the_tile_of_their_output() {
    let cfg = config();
    let mut tiles = build_tile_grid(&cfg);
    build_bitstream_logic_blocks(&mut tiles, &vec![model()], &place());
    assert_eq!(tiles[1][1].ble, vec![false, false, true, true, false]);
    assert_eq!(count_on(&tiles), 2);
}

#[test]
fn bitstream_switches_bits_on_only_and_twice_is_once() {
    let cfg = config();
    let fresh = build_tile_grid(&cfg);
    let mut tiles = build_tile_grid(&cfg);
    assert!(try_build_bitstream(&mut tiles, &vec![pad_net()], &vec![model()], &place(), &cfg));
    let once = bits(&tiles);
    // the pad's connection block and logic element bits, the switch, the sink's connection block, the table
    assert_eq!(tiles[1][0].con_blk_right[4], true);
    assert_eq!(tiles[1][0].ble[4], true);
    assert_eq!(tiles[1][0].sw_blk.0[4], true);
    assert_eq!(tiles[1][0].con_blk_top[1], true);
    assert_eq!(tiles[1][1].ble, vec![false, false, true, true, false]);
    assert_eq!(count_on(&tiles), 6);
    for (a, b) in bits(&fresh).iter().flatten().flatten().zip(once.iter().flatten().flatten()) {
        assert!(!*a || *b);
    }
    assert!(try_build_bitstream(&mut tiles, &vec![pad_net()], &vec![model()], &place(), &cfg));
    assert_eq!(bits(&tiles), once);
}

#[test]
fn bitstream_of_an_unplaced_table_fails() {
    let cfg = config();
    let mut tiles = build_tile_grid(&cfg);
    let empty = Placement { entries: vec![] };
    assert!(plan_bitstream(&vec![], &vec![model()], &empty, &cfg).is_none());
    assert!(!try_build_bitstream(&mut tiles, &vec![], &vec![model()], &empty, &cfg));
    assert!(plan_bitstream(&vec![], &vec![], &empty, &cfg).map(|w| w.is_empty()).unwrap_or(false));
}

#[test]
fn delay_event_graph_of_a_pad_net() {
    let cfg = config();
    let g = build_delay_event_graph(&vec![model()], &vec![pad_net()], &place(), &cfg).unwrap();
    assert_eq!(g.len(), 1);
    assert_eq!(g[0].0, "m");
    let nets = &g[0].1;
    assert_eq!(nets.len(), 1);
    assert_eq!(nets[0].0, "in");
    let routes = &nets[0].1;
    assert_eq!(routes.len(), 1);
    assert_eq!(routes[0].0, 1 + 0 + 5 + 3);
    assert_eq!(routes[0].1, vec![
        (1, RouteEventEnum::SyncSourceEvent(RouteEvent { point: Point(0, 1) })),
        (0, RouteEventEnum::TrackEntryEvent(RouteEvent { point: Point(0, 1) })),
        (5, RouteEventEnum::TrackSwitchEvent(RouteEvent { point: Point(0, 1) })),
        (3, RouteEventEnum::AsyncSinkEvent(RouteEvent { point: Point(1, 1) })),
    ]);
    assert_eq!(get_inter_ble_critical_path_delay(&g), Ok(9));
    let empty = Placement { entries: vec![] };
    assert!(try_build_delay_event_graph(&vec![model()], &vec![pad_net()], &empty, &cfg).is_none());
}

#[test]
fn widened_look_up_table_ignores_the_new_inputs() {
    let mut m = Model {
        name: String::from("m"),
        inputs: vec![String::from("a")],
        outputs: vec![String::from("s")],
        latched: vec![],
        logic: vec![LogicBlock {
            inputs: vec![String::from("a")],
            output: String::from("s"),
            truth_table: vec![false, true],
            truth_idxs: vec![1],
        }],
    };
    m.connect_dangling_input_ports(3);
    let lb = &m.logic[0];
    assert_eq!(lb.inputs, vec![String::from("a"), String::from("a"), String::from("a")]);
    assert_eq!(lb.truth_table, vec![false, true, false, true, false, true, false, true]);
    assert_eq!(lb.truth_idxs, vec![1, 3, 5, 7]);
    assert_eq!(lb.output, "s");
}

fn ev(x: u32, y: u32) -> RouteEvent {
    RouteEvent { point: Point(x, y) }
}

/// A latch at (0,0) drives net "a" to an unlatched block "b" at (1,0),
/// which drives net "b" to a latch at (2,0); a second latch-to-latch route
/// of net "a" reaches the latch at (2,0) directly.
fn latch_graph() -> (NamedDelayEventGraphList, Placement) {
    let net_a = vec![
        (7, vec![(2, RouteEventEnum::SyncSourceEvent(ev(0, 0))), (0, RouteEventEnum::TrackEntryEvent(ev(0, 0))), (5, RouteEventEnum::AsyncSinkEvent(ev(1, 0)))]),
        (4, vec![(2, RouteEventEnum::SyncSourceEvent(ev(0, 0))), (0, RouteEventEnum::TrackEntryEvent(ev(0, 0))), (2, RouteEventEnum::SyncSinkEvent(ev(2, 0)))]),
    ];
    let net_b = vec![
        (6, vec![(2, RouteEventEnum::AsyncSourceEvent(ev(1, 0))), (0, RouteEventEnum::TrackEntryEvent(ev(1, 0))), (4, RouteEventEnum::SyncSinkEvent(ev(2, 0)))]),
    ];
    let g = vec![(String::from("m"), vec![(String::from("a"), net_a), (String::from("b"), net_b)])];
    let place = Placement { entries: vec![(String::from("a"), Point(0, 0)), (String::from("b"), Point(1, 0)), (String::from("q"), Point(2, 0))] };
    (g, place)
}

#[test]
fn critical_paths_between_latches() {
    let (g, place) = latch_graph();
    assert_eq!(get_inter_ble_critical_path_delay(&g), Ok(7));
    // through the unlatched block: 7 + 6
    assert_eq!(try_get_async_inter_latch_crit_path_delay(&g, &place), Ok(13));
    assert_eq!(get_async_inter_latch_crit_path_delay(&g, &place), Ok(13));
    // two links on the longest latch-to-latch path, each at most 7
    assert_eq!(try_get_sync_inter_latch_crit_path_delay(7, &g, &place), Ok(14));
    assert_eq!(get_sync_inter_latch_crit_path_delay(7, &g, &place), Ok(14));
    assert_eq!(try_get_sync_inter_latch_crit_path_delay(0, &g, &place), Err(TimingError::NoInterLatchPath));
    assert_eq!(try_get_sync_inter_latch_crit_path_delay(u32::MAX, &g, &place), Err(TimingError::Unanalysable));
}

#[test]
fn critical_paths_without_latches_or_places() {
    let (g, place) = latch_graph();
    let only_b = vec![(String::from("m"), vec![g[0].1[1].clone()])];
    assert_eq!(try_get_async_inter_latch_crit_path_delay(&only_b, &place), Err(TimingError::NoInterLatchPath));
    assert_eq!(try_get_sync_inter_latch_crit_path_delay(7, &only_b, &place), Err(TimingError::NoInterLatchPath));
    let unplaced = Placement { entries: vec![(String::from("a"), Point(0, 0))] };
    assert_eq!(try_get_async_inter_latch_crit_path_delay(&g, &unplaced), Err(TimingError::Unanalysable));
    assert_eq!(try_get_sync_inter_latch_crit_path_delay(7, &g, &unplaced), Err(TimingError::Unanalysable));
}

/// A latch "a" drives a latch at (2,2) directly and an unlatched block "b";
/// "b" drives a latch at (4,4): the path a -> b -> latch has two links.
#[test]
fn sync_count_takes_the_path_with_the_most_links() {
    let g = vec![(String::from("m"), vec![
        (String::from("a"), vec![
            (4, vec![(2, RouteEventEnum::SyncSourceEvent(ev(0, 1))), (2, RouteEventEnum::SyncSinkEvent(ev(2, 2)))]),
            (6, vec![(2, RouteEventEnum::SyncSourceEvent(ev(0, 1))), (4, RouteEventEnum::AsyncSinkEvent(ev(3, 3)))]),
        ]),
        (String::from("b"), vec![
            (5, vec![(3, RouteEventEnum::AsyncSourceEvent(ev(3, 3))), (2, RouteEventEnum::SyncSinkEvent(ev(4, 4)))]),
        ]),
    ])];
    let place = Placement { entries: vec![(String::from("b"), Point(3, 3))] };
    assert_eq!(get_sync_inter_latch_crit_path_delay(10, &g, &place), Ok(20));
    assert_eq!(try_get_sync_inter_latch_crit_path_delay(10, &g, &place), Ok(20));
}

fn wide_config() -> Config {
    let mut cfg = config();
    cfg.channel_width = 4;
    cfg
}

fn ble_net(orientation: XY) -> RouteNet {
    RouteNet {
        name: String::from("n"),
        src: Source(Point(1, 1), NodeMetaType::Pin, 0, 0),
        route_tree: vec![Route {
            tracks: vec![Track { id: 1, nr: 1, xy: Point(1, 1), orientation }],
            sink: Some(Sink(Point(1, 1), NodeMetaType::Pin, 0, 1)),
            from_opin: true,
        }],
    }
}

#[test]
fn horizontal_tracks_run_top_to_bottom_in_the_connection_block() {
    let cfg = wide_config();
    let empty = Placement { entries: vec![] };
    let ws = plan_bitstream(&vec![ble_net(XY::X)], &vec![], &empty, &cfg).unwrap();
    assert_eq!(ws, vec![
        BitWrite { x: 1, y: 1, field: TileField::ConBlkTop, index: 8 + 2 },
        BitWrite { x: 1, y: 1, field: TileField::ConBlkTop, index: 0 + 2 },
    ]);
    let ws = plan_bitstream(&vec![ble_net(XY::Y)], &vec![], &empty, &cfg).unwrap();
    assert_eq!(ws, vec![
        BitWrite { x: 1, y: 1, field: TileField::ConBlkRight, index: 8 + 1 },
        BitWrite { x: 1, y: 1, field: TileField::ConBlkRight, index: 0 + 1 },
    ]);
    let mut wide = ble_net(XY::X);
    wide.route_tree[0].tracks[0].nr = 4;
    assert!(plan_bitstream(&vec![wide], &vec![], &empty, &cfg).is_none());
}

#[test]
fn every_connection_block_section_is_one_channel_wide() {
    let cfg = wide_config();
    let t = &build_tile_grid(&cfg)[0][0];
    let all = [PortFlow::RightIn, PortFlow::RightOut, PortFlow::BotIn, PortFlow::BotOut,
        PortFlow::LeftIn, PortFlow::LeftOut, PortFlow::TopIn, PortFlow::TopOut];
    for side in all.iter() {
        let s = t.get_con_blk_section(*side, &cfg);
        assert_eq!(s.end - s.start, 4);
        assert!(s.end <= 16);
    }
    assert_eq!(t.get_con_blk_section(PortFlow::RightIn, &cfg), ConBlkSection { on_right: true, start: 12, end: 16 });
    assert_eq!(t.get_con_blk_section(PortFlow::TopIn, &cfg), ConBlkSection { on_right: false, start: 12, end: 16 });
}

#[test]
fn connecting_dangling_inputs_keeps_the_model_ports() {
    let mut m = model();
    m.latched = vec![String::from("s")];
    m.connect_dangling_input_ports(3);
    assert_eq!(m.name, "m");
    assert_eq!(m.inputs, vec![String::from("in")]);
    assert_eq!(m.outputs, vec![String::from("s")]);
    assert_eq!(m.latched, vec![String::from("s")]);
}

#[test]
fn which_models_can_have_their_inputs_tied() {
    let m = model();
    assert!(m.can_connect_dangling_input_ports(3));
    assert!(m.can_connect_dangling_input_ports(2));
    let mut short = model();
    short.logic[0].truth_table = vec![false, true];
    assert!(!short.can_connect_dangling_input_ports(3));
    assert!(short.can_connect_dangling_input_ports(2));
    let mut empty = model();
    empty.logic[0].inputs = vec![];
    assert!(!empty.can_connect_dangling_input_ports(1));
    assert!(!m.can_connect_dangling_input_ports(33));
}
