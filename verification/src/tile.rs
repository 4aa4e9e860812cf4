use vstd::prelude::*;
use crate::config::Config;
use crate::types::{Point, Track, XY, Side, PortFlow};
use vstd::arithmetic::power2::pow2;

verus! {

/// The port of a switch block at `sb_xy` through which `track` passes.
///
/// Ports are numbered clockwise from the top of the right side: the right
/// side holds `0..W`, the bottom side `W..2W`, the left side `2W..3W` and the
/// top side `3W..4W`, where `W` is the channel width. Right and bottom ports
/// run against the track numbering. `None` where the port number, computed
/// in `u16`, would leave it.
pub open spec fn spec_port_index(track: Track, sb_xy: Point, w: u16) -> Option<u16> {
    let nr = track.nr as int;
    let v: int = match track.orientation {
        XY::X => if track.xy == sb_xy { 2 * w + nr } else { (w - 1) - nr },
        XY::Y => if track.xy == sb_xy { w + ((w - 1) - nr) } else { 3 * w + nr },
    };
    let ch_max_ok = (track.orientation == XY::X && track.xy == sb_xy)
        || (track.orientation == XY::Y && track.xy != sb_xy) || nr <= w - 1;
    if 1 <= w && 4 * w <= u16::MAX && ch_max_ok && 0 <= v <= u16::MAX {
        Some(v as u16)
    } else {
        None
    }
}

/// The switch block programming bit that connects input port `in_port` to
/// output port `out_port`, for a channel width of `w` tracks.
///
/// Every input port owns three bits (one per output side it can reach); the
/// bit within the three is chosen by the side of the output port. `None`
/// where the index, computed in `u16`, would leave it.
pub open spec fn spec_connection_bit_index(in_port: u16, out_port: u16, w: u16) -> Option<usize> {
    if w == 0 {
        None
    } else {
        let output_side = out_port / w;
        let bit_ok = if in_port > out_port { output_side >= 1 } else { output_side <= 3 };
        let bit: int = if in_port > out_port { output_side - 1 } else { 3 - output_side };
        let idx: int = (in_port / 2) * 3 + bit;
        if bit_ok && idx <= u16::MAX {
            Some(idx as usize)
        } else {
            None
        }
    }
}

/// The switch block bit for `in_port` to `out_port` (see `spec_connection_bit_index`).
pub fn switch_bit_index(in_port: u16, out_port: u16, w: u16) -> (r: Option<usize>)
    ensures r == spec_connection_bit_index(in_port, out_port, w),
{
    if w == 0 {
        return None;
    }
    let output_side = out_port / w;
    let bit: u16 = if in_port > out_port {
        if output_side < 1 {
            return None;
        }
        output_side - 1
    } else {
        if output_side > 3 {
            return None;
        }
        3 - output_side
    };
    let input_index = in_port / 2;
    if input_index > 21845 {
        return None;
    }
    let idx3: u16 = input_index * 3;
    match idx3.checked_add(bit) {
        Some(i) => Some(i as usize),
        None => None,
    }
}

/// The switch block port of `track` (see `spec_port_index`).
pub fn port_index(track: &Track, sb_xy: &Point, w: u16) -> (r: Option<u16>)
    ensures r == spec_port_index(*track, *sb_xy, w),
{
    if w == 0 || w > 16383 {
        return None;
    }
    let nr = track.nr;
    match track.orientation {
        XY::X => {
            if track.xy == *sb_xy {
                (w * 2).checked_add(nr)
            } else {
                if nr > w - 1 {
                    None
                } else {
                    Some((w - 1) - nr)
                }
            }
        },
        XY::Y => {
            if track.xy == *sb_xy {
                if nr > w - 1 {
                    None
                } else {
                    Some(w + ((w - 1) - nr))
                }
            } else {
                (w * 3).checked_add(nr)
            }
        },
    }
}

/// The programming bits of a switch block.
pub struct SwitchBlockBitstream(pub Vec<bool>);

/// The kinds of switch block the generator knows.
#[derive(Clone, Copy, Debug, PartialEq, Eq, Structural)]
pub enum SwitchBlockType {
    Wilton,
}

/// A switch block: its programming bits and the numbering of its ports and bits.
///
/// With the unidirectional Wilton block only half of the ports on each side
/// are inputs; every input turns right, turns left or goes straight on, which
/// gives three programming bits per input port.
pub trait SwitchBlock {
    spec fn spec_bits(&self) -> Seq<bool>;

    /// The programming bits.
    fn get_bits(&self) -> (r: Vec<bool>)
        ensures
            r@ == self.spec_bits(),
    ;

    /// The programming bits, borrowed.
    fn as_slice(&self) -> (r: &[bool])
        ensures
            r@ == self.spec_bits(),
    ;

    /// The port through which `track` passes the switch block at `sb_xy`.
    fn get_port_index(&self, track: &Track, sb_xy: &Point, ch_width: u16) -> (r: u16)
        requires
            spec_port_index(*track, *sb_xy, ch_width) is Some,
        ensures
            Some(r) == spec_port_index(*track, *sb_xy, ch_width),
    ;

    /// The bit that connects `in_port` to `out_port`.
    fn get_connection_bit_index(in_port: u16, out_port: u16, n_tracks: u16) -> (r: usize)
        requires
            spec_connection_bit_index(in_port, out_port, n_tracks) is Some,
        ensures
            Some(r) == spec_connection_bit_index(in_port, out_port, n_tracks),
    ;

    /// Switches on the connection from `in_port` to `out_port`.
    fn set_connect(&mut self, in_port: u16, out_port: u16, n_tracks: u16)
        requires
            spec_connection_bit_index(in_port, out_port, n_tracks) matches Some(i)
                && i < old(self).spec_bits().len(),
        ensures
            final(self).spec_bits() == old(self).spec_bits().update(
                spec_connection_bit_index(in_port, out_port, n_tracks)->0 as int, true),
    ;
}

/// The Wilton switch block.
pub type WiltonSwitchBlockBitstream = SwitchBlockBitstream;

impl SwitchBlock for SwitchBlockBitstream {
    open spec fn spec_bits(&self) -> Seq<bool> {
        self.0@
    }

    fn get_bits(&self) -> (r: Vec<bool>) {
        let mut r: Vec<bool> = Vec::new();
        let mut i: usize = 0;
        while i < self.0.len()
            invariant
                i <= self.0@.len(),
                r@ =~= self.0@.subrange(0, i as int),
            decreases self.0@.len() - i,
        {
            r.push(self.0[i]);
            i = i + 1;
        }
        r
    }

    fn as_slice(&self) -> (r: &[bool]) {
        self.0.as_slice()
    }

    fn get_port_index(&self, track: &Track, sb_xy: &Point, ch_width: u16) -> (r: u16) {
        match port_index(track, sb_xy, ch_width) {
            Some(p) => p,
            None => 0,
        }
    }

    fn get_connection_bit_index(in_port: u16, out_port: u16, n_tracks: u16) -> (r: usize) {
        match switch_bit_index(in_port, out_port, n_tracks) {
            Some(i) => i,
            None => 0,
        }
    }

    fn set_connect(&mut self, in_port: u16, out_port: u16, n_tracks: u16) {
        let i = Self::get_connection_bit_index(in_port, out_port, n_tracks);
        self.0.set(i, true);
    }
}

/// The abstract content of a tile.
pub struct TileView {
    pub xy: Point,
    pub sw: Seq<bool>,
    pub top: Seq<bool>,
    pub right: Seq<bool>,
    pub ble: Seq<bool>,
}

/// One tile of the FPGA: a switch block, the connection blocks above and to
/// the right of it, and a basic logic element.
pub struct Tile {
    pub xy: Point,
    pub sw_blk: SwitchBlockBitstream,
    pub con_blk_top: Vec<bool>,
    pub con_blk_right: Vec<bool>,
    pub ble: Vec<bool>,
}

impl DeepView for Tile {
    type V = TileView;

    open spec fn deep_view(&self) -> TileView {
        TileView {
            xy: self.xy,
            sw: self.sw_blk.0@,
            top: self.con_blk_top@,
            right: self.con_blk_right@,
            ble: self.ble@,
        }
    }
}

/// The bits of a tile in programming order: the logic element, the top
/// connection block, the switch block and the right connection block.
pub open spec fn spec_tile_bits(t: TileView) -> Seq<bool> {
    t.ble + t.top + t.sw + t.right
}

/// A tile's programming bits hold its four groups one after the other: the
/// logic element's bits first, then the top connection block from position
/// `ble.len()`, the switch block after that, and the right connection block
/// last; nothing else.
pub proof fn law_tile_bits_layout(t: TileView)
    ensures
        ({
            let bits = spec_tile_bits(t);
            let top_at = t.ble.len() as int;
            let sw_at = top_at + t.top.len();
            let right_at = sw_at + t.sw.len();
            &&& bits.len() == right_at + t.right.len()
            &&& forall|i: int| 0 <= i < t.ble.len() ==> bits[i] == #[trigger] t.ble[i]
            &&& forall|i: int| 0 <= i < t.top.len() ==> bits[top_at + i] == #[trigger] t.top[i]
            &&& forall|i: int| 0 <= i < t.sw.len() ==> bits[sw_at + i] == #[trigger] t.sw[i]
            &&& forall|i: int| 0 <= i < t.right.len() ==> bits[right_at + i] == #[trigger] t.right[i]
        }),
{
}

/// The side of the FPGA that a tile at `p` borders, as the tile reports it.
pub open spec fn spec_fpga_edge(p: Point, n_tiles: u16) -> Side {
    if p.0 == n_tiles {
        Side::Right
    } else if p.1 == n_tiles {
        Side::Top
    } else if p.1 == 0 {
        Side::Bottom
    } else {
        Side::Left
    }
}

/// Where the section of a connection block lies: in the right block (or else
/// the top block) at the positions `start..end`.
#[derive(Clone, Copy, Debug, PartialEq, Eq, Structural)]
pub struct ConBlkSection {
    pub on_right: bool,
    pub start: usize,
    pub end: usize,
}

/// The connection block section of each port flow, for channel width `w`.
pub open spec fn spec_con_blk_section(side: PortFlow, w: u16) -> ConBlkSection {
    let w = w as int;
    match side {
        PortFlow::RightIn => ConBlkSection { on_right: true, start: (3 * w) as usize, end: (4 * w) as usize },
        PortFlow::RightOut => ConBlkSection { on_right: true, start: (2 * w) as usize, end: (3 * w) as usize },
        PortFlow::LeftIn => ConBlkSection { on_right: true, start: w as usize, end: (2 * w) as usize },
        PortFlow::LeftOut => ConBlkSection { on_right: true, start: 0, end: w as usize },
        PortFlow::TopIn => ConBlkSection { on_right: false, start: (3 * w) as usize, end: (4 * w) as usize },
        PortFlow::TopOut => ConBlkSection { on_right: false, start: (2 * w) as usize, end: (3 * w) as usize },
        PortFlow::BotIn => ConBlkSection { on_right: false, start: w as usize, end: (2 * w) as usize },
        PortFlow::BotOut => ConBlkSection { on_right: false, start: 0, end: w as usize },
    }
}

/// Each connection block holds four sections of one channel width each that
/// together fill its `4 * w` bits: every section is `w` bits wide and lies
/// within the block, and two different sections of one block do not overlap.
pub proof fn law_con_blk_sections_fill_the_block(w: u16)
    requires
        1 <= w,
        4 * w <= u16::MAX,
    ensures
        forall|side: PortFlow| {
            let s = #[trigger] spec_con_blk_section(side, w);
            &&& s.end - s.start == w
            &&& s.end <= 4 * w
        },
        forall|a: PortFlow, b: PortFlow| a != b
            && (#[trigger] spec_con_blk_section(a, w)).on_right == (#[trigger] spec_con_blk_section(b, w)).on_right
            ==> spec_con_blk_section(a, w).end <= spec_con_blk_section(b, w).start
                || spec_con_blk_section(b, w).end <= spec_con_blk_section(a, w).start,
{
}

/// The shape a tile has for the settings `cfg`.
pub open spec fn spec_tile_fits(t: TileView, cfg: Config) -> bool {
    &&& t.sw.len() == 3 * 4 * cfg.channel_width / 2
    &&& t.top.len() == 4 * cfg.channel_width * cfg.n_rail
    &&& t.right.len() == 4 * cfg.channel_width * cfg.n_rail
    &&& t.ble.len() == pow2(cfg.lut_k as nat) + cfg.ble_clk_en_size
}

/// A sequence of `n` times `false`.
pub open spec fn falses(n: nat) -> Seq<bool> {
    Seq::new(n, |i: int| false)
}

fn false_vec(n: usize) -> (r: Vec<bool>)
    ensures r@ == falses(n as nat),
{
    let mut r: Vec<bool> = Vec::new();
    while r.len() < n
        invariant
            r@.len() <= n,
            r@ =~= falses(r@.len()),
        decreases n - r@.len(),
    {
        r.push(false);
    }
    r
}

impl Tile {
    /// A tile at `xy` with every programming bit off, sized for `cfg`.
    pub fn new(xy: Point, cfg: &Config) -> (r: Tile)
        requires
            cfg.wf(),
        ensures
            r.deep_view() == (TileView {
                xy,
                sw: falses((3 * 4 * cfg.channel_width / 2) as nat),
                top: falses((4 * cfg.channel_width * cfg.n_rail) as nat),
                right: falses((4 * cfg.channel_width * cfg.n_rail) as nat),
                ble: falses((pow2(cfg.lut_k as nat) + cfg.ble_clk_en_size) as nat),
            }),
            spec_tile_fits(r.deep_view(), *cfg),
    {
        let sw = false_vec(cfg.sw_blk_size() as usize);
        let top = false_vec(cfg.con_blk_size() as usize);
        let right = false_vec(cfg.con_blk_size() as usize);
        let ble = false_vec(cfg.ble_size() as usize);
        Tile { xy, sw_blk: SwitchBlockBitstream(sw), con_blk_top: top, con_blk_right: right, ble }
    }

    /// The programming bits of the tile (see `spec_tile_bits`).
    pub fn bitstream(&self) -> (r: Vec<bool>)
        ensures
            r@ == spec_tile_bits(self.deep_view()),
    {
        let mut ret: Vec<bool> = Vec::new();
        ret.extend_from_slice(self.ble.as_slice());
        ret.extend_from_slice(self.con_blk_top.as_slice());
        let sw = self.sw_blk.get_bits();
        ret.extend_from_slice(sw.as_slice());
        ret.extend_from_slice(self.con_blk_right.as_slice());
        assert(ret@ =~= spec_tile_bits(self.deep_view()));
        ret
    }

    /// The side of the FPGA this tile borders (see `spec_fpga_edge`).
    pub fn try_get_fpga_edge(&self, n_tiles: u16) -> (r: Option<Side>)
        ensures
            r == Some(spec_fpga_edge(self.xy, n_tiles)),
    {
        let x = self.xy.0;
        let y = self.xy.1;
        if x as u64 == n_tiles as u64 {
            Some(Side::Right)
        } else if y as u64 == n_tiles as u64 {
            Some(Side::Top)
        } else if y == 0 {
            Some(Side::Bottom)
        } else {
            Some(Side::Left)
        }
    }

    /// Switches on the switch block connection from `in_port` to `out_port`.
    pub fn set_sw_b_bits(&mut self, in_port: u16, out_port: u16, n_tracks: u16)
        requires
            spec_connection_bit_index(in_port, out_port, n_tracks) matches Some(i)
                && i < old(self).sw_blk.0@.len(),
        ensures
            final(self).deep_view() == (TileView {
                sw: old(self).sw_blk.0@.update(
                    spec_connection_bit_index(in_port, out_port, n_tracks)->0 as int, true),
                ..old(self).deep_view()
            }),
    {
        let idx = Tile::get_switchblock_path_index(in_port, out_port, n_tracks);
        self.sw_blk.0.set(idx, true);
    }

    /// Switches on bit `index` of the logic element.
    pub fn set_ble_at(&mut self, index: usize)
        requires
            index < old(self).ble@.len(),
        ensures
            final(self).deep_view() == (TileView {
                ble: old(self).ble@.update(index as int, true),
                ..old(self).deep_view()
            }),
    {
        self.ble.set(index, true);
    }

    /// Switches on bit `index` of the top connection block.
    pub fn set_top_con_blk_at(&mut self, index: usize)
        requires
            index < old(self).con_blk_top@.len(),
        ensures
            final(self).deep_view() == (TileView {
                top: old(self).con_blk_top@.update(index as int, true),
                ..old(self).deep_view()
            }),
    {
        self.con_blk_top.set(index, true);
    }

    /// Switches on bit `index` of the right connection block.
    pub fn set_right_con_blk_at(&mut self, index: usize)
        requires
            index < old(self).con_blk_right@.len(),
        ensures
            final(self).deep_view() == (TileView {
                right: old(self).con_blk_right@.update(index as int, true),
                ..old(self).deep_view()
            }),
    {
        self.con_blk_right.set(index, true);
    }

    /// Where the connection block section `side` lies (see `spec_con_blk_section`).
    pub fn get_con_blk_section(&self, side: PortFlow, cfg: &Config) -> (r: ConBlkSection)
        requires
            cfg.wf(),
        ensures
            r == spec_con_blk_section(side, cfg.channel_width),
    {
        let top_in = cfg.cb_top_in_idx() as usize;
        let top_end = top_in + cfg.channel_width as usize;
        let bot_in = cfg.cb_bot_in_idx() as usize;
        let top_out = cfg.cb_top_out_idx() as usize;
        let bot_out = cfg.cb_bot_out_idx() as usize;
        match side {
            PortFlow::RightIn => ConBlkSection { on_right: true, start: top_in, end: top_end },
            PortFlow::RightOut => ConBlkSection { on_right: true, start: bot_in, end: top_in },
            PortFlow::LeftIn => ConBlkSection { on_right: true, start: top_out, end: bot_in },
            PortFlow::LeftOut => ConBlkSection { on_right: true, start: bot_out, end: top_out },
            PortFlow::TopIn => ConBlkSection { on_right: false, start: top_in, end: top_end },
            PortFlow::TopOut => ConBlkSection { on_right: false, start: bot_in, end: top_in },
            PortFlow::BotIn => ConBlkSection { on_right: false, start: top_out, end: bot_in },
            PortFlow::BotOut => ConBlkSection { on_right: false, start: bot_out, end: top_out },
        }
    }

    /// The switch block bit that connects `in_port` to `out_port`.
    fn get_switchblock_path_index(in_port: u16, out_port: u16, n_tracks: u16) -> (r: usize)
        requires
            spec_connection_bit_index(in_port, out_port, n_tracks) is Some,
        ensures
            Some(r) == spec_connection_bit_index(in_port, out_port, n_tracks),
    {
        SwitchBlockBitstream::get_connection_bit_index(in_port, out_port, n_tracks)
    }

    /// Connects `prev_track` to `this_track` in the switch block of this tile.
    pub fn connect_tracks(&mut self, prev_track: &Track, this_track: &Track, n_tracks: u16)
        requires
            spec_port_index(*prev_track, old(self).xy, n_tracks) matches Some(i)
            && spec_port_index(*this_track, old(self).xy, n_tracks) matches Some(o)
            && spec_connection_bit_index(i, o, n_tracks) matches Some(b)
            && b < old(self).sw_blk.0@.len(),
        ensures
            final(self).deep_view() == (TileView {
                sw: old(self).sw_blk.0@.update(
                    spec_connection_bit_index(
                        spec_port_index(*prev_track, old(self).xy, n_tracks)->0,
                        spec_port_index(*this_track, old(self).xy, n_tracks)->0,
                        n_tracks)->0 as int, true),
                ..old(self).deep_view()
            }),
    {
        let xy = self.xy;
        let in_port = self.sw_blk.get_port_index(prev_track, &xy, n_tracks);
        let out_port = self.sw_blk.get_port_index(this_track, &xy, n_tracks);
        self.set_sw_b_bits(in_port, out_port, n_tracks);
    }
}

/// A track whose number lies within the channel passes a switch block
/// through one of its `4 * w` ports.
pub proof fn law_port_index_in_block(track: Track, sb_xy: Point, w: u16)
    requires
        1 <= w,
        4 * w <= u16::MAX,
        track.nr < w,
    ensures
        spec_port_index(track, sb_xy, w) matches Some(p) && p < 4 * w,
{
}

/// Connecting two ports of a switch block names one of its `3 * 4 * w / 2`
/// programming bits whenever the bit index exists.
pub proof fn law_connection_bit_in_block(in_port: u16, out_port: u16, w: u16)
    requires
        1 <= w,
        12 * w <= u16::MAX,
        in_port < 4 * w,
        out_port < 4 * w,
        spec_connection_bit_index(in_port, out_port, w) is Some,
    ensures
        spec_connection_bit_index(in_port, out_port, w)->0 < 3 * 4 * w / 2,
{
    let side = out_port / w;
    let half = in_port / 2;
    assert(3 * 4 * w / 2 == 6 * w);
    assert(side < 4) by (nonlinear_arith)
        requires side == out_port / w, out_port < 4 * w, w >= 1;
    let idx = spec_connection_bit_index(in_port, out_port, w)->0;
    assert(half * 2 <= in_port) by (nonlinear_arith)
        requires half == in_port / 2;
    assert(side * w <= out_port) by (nonlinear_arith)
        requires side == out_port / w, w >= 1;
    if in_port > out_port {
        assert(half * 3 + 2 < 6 * w) by (nonlinear_arith)
            requires half * 2 <= in_port, in_port < 4 * w;
        assert(idx <= half * 3 + 2);
    } else {
        if side == 0 {
            assert(out_port < w) by (nonlinear_arith)
                requires side == out_port / w, w >= 1, side == 0;
            assert(half * 3 + 3 < 6 * w) by (nonlinear_arith)
                requires half * 2 <= in_port, in_port <= out_port, out_port < w;
            assert(idx == half * 3 + 3);
        } else {
            assert(half * 3 + 2 < 6 * w) by (nonlinear_arith)
                requires half * 2 <= in_port, in_port < 4 * w;
            assert(idx <= half * 3 + 2);
        }
    }
}

} // verus!
