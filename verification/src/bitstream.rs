//! Mapping of routed nets and look-up tables onto the programming bits of
//! the tiles.
//!
//! The generator first works out which bits to switch on (a list of
//! `BitWrite`s), then switches them on. Connection block bits are laid out
//! as `{bot_out, top_out, bot_in, top_in}` sections of one channel width
//! each; switch block bits as three bits per input port.
use vstd::prelude::*;
use crate::config::Config;
use crate::types::{Point, Track, XY, Side, NodeMetaType, Source, Sink, Route, RouteNet,
    LogicBlock, Model, Placement, spec_edges, spec_point_of};
use crate::tile::{Tile, TileView, spec_port_index, spec_connection_bit_index, port_index,
    switch_bit_index};

verus! {

/// A group of programming bits of a tile.
#[derive(Clone, Copy, Debug, PartialEq, Eq, Structural)]
pub enum TileField {
    SwitchBlock,
    ConBlkTop,
    ConBlkRight,
    Ble,
}

/// Switch on bit `index` of group `field` of the tile `tiles[y][x]`.
#[derive(Clone, Copy, Debug, PartialEq, Eq, Structural)]
pub struct BitWrite {
    pub x: usize,
    pub y: usize,
    pub field: TileField,
    pub index: usize,
}

/// The abstract content of a tile matrix, indexed `[y][x]`.
pub type GridView = Seq<Seq<TileView>>;

pub open spec fn spec_field(t: TileView, f: TileField) -> Seq<bool> {
    match f {
        TileField::SwitchBlock => t.sw,
        TileField::ConBlkTop => t.top,
        TileField::ConBlkRight => t.right,
        TileField::Ble => t.ble,
    }
}

pub open spec fn spec_set_field(t: TileView, f: TileField, s: Seq<bool>) -> TileView {
    match f {
        TileField::SwitchBlock => TileView { sw: s, ..t },
        TileField::ConBlkTop => TileView { top: s, ..t },
        TileField::ConBlkRight => TileView { right: s, ..t },
        TileField::Ble => TileView { ble: s, ..t },
    }
}

/// The bit that `w` names exists in `g`.
pub open spec fn write_fits(g: GridView, w: BitWrite) -> bool {
    &&& w.y < g.len()
    &&& w.x < g[w.y as int].len()
    &&& w.index < spec_field(g[w.y as int][w.x as int], w.field).len()
}

/// Every bit that `ws` names exists in `g`.
pub open spec fn writes_fit(g: GridView, ws: Seq<BitWrite>) -> bool {
    forall|k: int| 0 <= k < ws.len() ==> write_fits(g, #[trigger] ws[k])
}

/// `g` with the bit that `w` names switched on.
pub open spec fn spec_apply_write(g: GridView, w: BitWrite) -> GridView {
    if write_fits(g, w) {
        let t = g[w.y as int][w.x as int];
        let t2 = spec_set_field(t, w.field, spec_field(t, w.field).update(w.index as int, true));
        g.update(w.y as int, g[w.y as int].update(w.x as int, t2))
    } else {
        g
    }
}

/// `g` with the bits that `ws` names switched on, in order.
pub open spec fn spec_apply_writes(g: GridView, ws: Seq<BitWrite>) -> GridView
    decreases ws.len(),
{
    if ws.len() == 0 {
        g
    } else {
        spec_apply_write(spec_apply_writes(g, ws.drop_last()), ws.last())
    }
}

/// Two grids with the same shape: the same tiles with the same number of bits.
pub open spec fn same_shape(g1: GridView, g2: GridView) -> bool {
    &&& g1.len() == g2.len()
    &&& forall|y: int| 0 <= y < g1.len() ==> #[trigger] g1[y].len() == g2[y].len()
    &&& forall|y: int, x: int| 0 <= y < g1.len() && 0 <= x < g1[y].len() ==> {
        &&& (#[trigger] g1[y][x]).xy == g2[y][x].xy
        &&& g1[y][x].sw.len() == g2[y][x].sw.len()
        &&& g1[y][x].top.len() == g2[y][x].top.len()
        &&& g1[y][x].right.len() == g2[y][x].right.len()
        &&& g1[y][x].ble.len() == g2[y][x].ble.len()
    }
}

/// Bit `i` of group `f` of tile `[y][x]`, `false` where there is no such bit.
pub open spec fn spec_bit(g: GridView, y: int, x: int, f: TileField, i: int) -> bool {
    if 0 <= y < g.len() && 0 <= x < g[y].len() && 0 <= i < spec_field(g[y][x], f).len() {
        spec_field(g[y][x], f)[i]
    } else {
        false
    }
}

/// Concatenation of two partial write lists; `None` when either is.
pub open spec fn ocat(a: Option<Seq<BitWrite>>, b: Option<Seq<BitWrite>>) -> Option<Seq<BitWrite>> {
    match (a, b) {
        (Some(a), Some(b)) => Some(a + b),
        _ => None,
    }
}

// ---------------------------------------------------------------------------
// Applying writes
// ---------------------------------------------------------------------------

proof fn lemma_apply_write_shape(g: GridView, w: BitWrite)
    ensures
        same_shape(g, spec_apply_write(g, w)),
{
}

proof fn lemma_same_shape_trans(a: GridView, b: GridView, c: GridView)
    requires same_shape(a, b), same_shape(b, c),
    ensures same_shape(a, c),
{
}

proof fn lemma_same_shape_both(g: GridView, a: GridView, b: GridView)
    requires same_shape(g, a), same_shape(g, b),
    ensures same_shape(a, b),
{
    assert forall|y: int| 0 <= y < a.len() implies #[trigger] a[y].len() == b[y].len() by {
        assert(g[y].len() == a[y].len());
    }
    assert forall|y: int, x: int| 0 <= y < a.len() && 0 <= x < a[y].len() implies {
        &&& (#[trigger] a[y][x]).xy == b[y][x].xy
        &&& a[y][x].sw.len() == b[y][x].sw.len()
        &&& a[y][x].top.len() == b[y][x].top.len()
        &&& a[y][x].right.len() == b[y][x].right.len()
        &&& a[y][x].ble.len() == b[y][x].ble.len()
    } by {
        assert(g[y].len() == a[y].len());
        let t = g[y][x];
    }
}

proof fn lemma_write_fits_shape(g1: GridView, g2: GridView, w: BitWrite)
    requires same_shape(g1, g2),
    ensures write_fits(g1, w) == write_fits(g2, w),
{
    if w.y < g1.len() && w.x < g1[w.y as int].len() {
        let t1 = g1[w.y as int][w.x as int];
        let t2 = g2[w.y as int][w.x as int];
        assert(spec_field(t1, w.field).len() == spec_field(t2, w.field).len());
    }
}

pub proof fn lemma_apply_writes_shape(g: GridView, ws: Seq<BitWrite>)
    ensures
        same_shape(g, spec_apply_writes(g, ws)),
    decreases ws.len(),
{
    if ws.len() > 0 {
        lemma_apply_writes_shape(g, ws.drop_last());
        let h = spec_apply_writes(g, ws.drop_last());
        lemma_apply_write_shape(h, ws.last());
        lemma_same_shape_trans(g, h, spec_apply_write(h, ws.last()));
    }
}

/// Applying `a` and then `b` is applying `a + b`.
pub proof fn lemma_apply_writes_append(g: GridView, a: Seq<BitWrite>, b: Seq<BitWrite>)
    ensures
        spec_apply_writes(spec_apply_writes(g, a), b) == spec_apply_writes(g, a + b),
    decreases b.len(),
{
    if b.len() == 0 {
        assert(a + b =~= a);
    } else {
        lemma_apply_writes_append(g, a, b.drop_last());
        assert((a + b).drop_last() =~= a + b.drop_last());
        assert((a + b).last() == b.last());
    }
}

fn apply_write(tiles: &mut Vec<Vec<Tile>>, w: &BitWrite)
    requires
        write_fits(old(tiles).deep_view(), *w),
    ensures
        final(tiles).deep_view() == spec_apply_write(old(tiles).deep_view(), *w),
{
    let ghost g = tiles.deep_view();
    let y = w.y;
    let x = w.x;
    match w.field {
        TileField::SwitchBlock => {
            tiles[y][x].sw_blk.0.set(w.index, true);
        },
        TileField::ConBlkTop => {
            tiles[y][x].set_top_con_blk_at(w.index);
        },
        TileField::ConBlkRight => {
            tiles[y][x].set_right_con_blk_at(w.index);
        },
        TileField::Ble => {
            tiles[y][x].set_ble_at(w.index);
        },
    }
    proof {
        let ng = tiles.deep_view();
        let e = spec_apply_write(g, *w);
        assert(ng[y as int] =~= e[y as int]);
        assert(ng =~= e);
    }
}

/// Switches on, in order, every bit that `ws` names.
pub fn apply_bitstream_writes(tiles: &mut Vec<Vec<Tile>>, ws: &Vec<BitWrite>)
    requires
        writes_fit(old(tiles).deep_view(), ws@),
    ensures
        final(tiles).deep_view() == spec_apply_writes(old(tiles).deep_view(), ws@),
{
    let ghost g0 = tiles.deep_view();
    let mut k: usize = 0;
    assert(ws@.subrange(0, 0) =~= Seq::<BitWrite>::empty());
    while k < ws.len()
        invariant
            k <= ws@.len(),
            writes_fit(g0, ws@),
            tiles.deep_view() == spec_apply_writes(g0, ws@.subrange(0, k as int)),
        decreases ws@.len() - k,
    {
        proof {
            lemma_apply_writes_shape(g0, ws@.subrange(0, k as int));
            lemma_write_fits_shape(g0, tiles.deep_view(), ws@[k as int]);
        }
        apply_write(tiles, &ws[k]);
        assert(ws@.subrange(0, k + 1).drop_last() =~= ws@.subrange(0, k as int));
        k = k + 1;
    }
    assert(ws@.subrange(0, ws@.len() as int) =~= ws@);
}

/// Whether every bit that `ws` names exists in `tiles`.
pub fn writes_fit_tiles(tiles: &Vec<Vec<Tile>>, ws: &Vec<BitWrite>) -> (r: bool)
    ensures
        r == writes_fit(tiles.deep_view(), ws@),
{
    let mut k: usize = 0;
    while k < ws.len()
        invariant
            k <= ws@.len(),
            forall|j: int| 0 <= j < k ==> write_fits(tiles.deep_view(), #[trigger] ws@[j]),
        decreases ws@.len() - k,
    {
        let w = ws[k];
        if w.y >= tiles.len() {
            return false;
        }
        if w.x >= tiles[w.y].len() {
            return false;
        }
        let t = &tiles[w.y][w.x];
        let len = match w.field {
            TileField::SwitchBlock => t.sw_blk.0.len(),
            TileField::ConBlkTop => t.con_blk_top.len(),
            TileField::ConBlkRight => t.con_blk_right.len(),
            TileField::Ble => t.ble.len(),
        };
        if w.index >= len {
            return false;
        }
        k = k + 1;
    }
    true
}

// ---------------------------------------------------------------------------
// Connections between the routing and the logic elements or pads
// ---------------------------------------------------------------------------

/// A connection block write at `base + nr`; `None` where the index leaves `u16`.
pub open spec fn spec_cb_write(x: u32, y: u32, on_right: bool, base: int, nr: u16) -> Option<Seq<BitWrite>> {
    if base + nr <= u16::MAX {
        Some(seq![BitWrite {
            x: x as usize,
            y: y as usize,
            field: if on_right { TileField::ConBlkRight } else { TileField::ConBlkTop },
            index: (base + nr) as usize,
        }])
    } else {
        None
    }
}

/// A logic element write at `index` of the tile at the track's location.
pub open spec fn spec_ble_write(x: u32, y: u32, index: usize) -> Seq<BitWrite> {
    seq![BitWrite { x: x as usize, y: y as usize, field: TileField::Ble, index }]
}

/// A write into the top connection block of a horizontal channel. Its tracks
/// are numbered from top to bottom in hardware, the reverse of the routing's
/// numbering, so track `nr` sits at `base + (w - 1 - nr)`; `None` for a track
/// number that a channel of width `w` does not have.
pub open spec fn spec_cb_write_rev(x: u32, y: u32, base: int, nr: u16, w: u16) -> Option<Seq<BitWrite>> {
    if nr < w {
        spec_cb_write(x, y, false, base, (w - 1 - nr) as u16)
    } else {
        None
    }
}

/// Source logic element to its first track. A horizontal track enters the
/// top connection block in reversed order; the 'top' block of a vertical
/// channel lies to its left, so there the two numberings agree.
pub open spec fn spec_source_from_ble(source: Source, track: Track, w: u16) -> Option<Seq<BitWrite>> {
    let (tx, ty) = (track.xy.0, track.xy.1);
    match track.orientation {
        XY::X => if ty == source.0.1 {
            spec_cb_write_rev(tx, ty, 2 * w, track.nr, w)
        } else {
            spec_cb_write_rev(tx, ty, 3 * w, track.nr, w)
        },
        XY::Y => if tx == source.0.0 {
            spec_cb_write(tx, ty, true, 2 * w, track.nr)
        } else {
            spec_cb_write(tx, ty, true, 3 * w, track.nr)
        },
    }
}

/// Last track to its sink logic element, numbered as in `spec_source_from_ble`.
pub open spec fn spec_sink_to_ble(sink: Sink, track: Track, w: u16) -> Option<Seq<BitWrite>> {
    let (tx, ty) = (track.xy.0, track.xy.1);
    match track.orientation {
        XY::X => if ty == sink.0.1 {
            spec_cb_write_rev(tx, ty, 0, track.nr, w)
        } else {
            spec_cb_write_rev(tx, ty, w as int, track.nr, w)
        },
        XY::Y => if tx == sink.0.0 {
            spec_cb_write(tx, ty, true, 0, track.nr)
        } else {
            spec_cb_write(tx, ty, true, w as int, track.nr)
        },
    }
}

/// Source pad to its first track; `None` when the pad is on no edge.
pub open spec fn spec_source_from_pad(source: Source, track: Track, w: u16, n_tiles: u16) -> Option<Seq<BitWrite>> {
    let (tx, ty) = (track.xy.0, track.xy.1);
    let edges = spec_edges(source.0, n_tiles);
    if edges.len() == 0 {
        None
    } else {
        match edges[0] {
            Side::Right => spec_cb_write(tx, ty, true, 3 * w, track.nr),
            Side::Bottom => ocat(spec_cb_write(tx, ty, false, 2 * w, track.nr), Some(spec_ble_write(tx, ty, 2))),
            Side::Left => ocat(spec_cb_write(tx, ty, true, 2 * w, track.nr), Some(spec_ble_write(tx, ty, 4))),
            Side::Top => spec_cb_write(tx, ty, false, 3 * w, track.nr),
        }
    }
}

/// Last track to its sink pad; `None` when the pad is on no edge.
pub open spec fn spec_sink_to_pad(sink: Sink, track: Track, w: u16, n_tiles: u16) -> Option<Seq<BitWrite>> {
    let (tx, ty) = (track.xy.0, track.xy.1);
    let edges = spec_edges(sink.0, n_tiles);
    if edges.len() == 0 {
        None
    } else {
        match edges[0] {
            Side::Right => spec_cb_write(tx, ty, true, w as int, track.nr),
            Side::Bottom => ocat(spec_cb_write(tx, ty, false, 0, track.nr), Some(spec_ble_write(tx, ty, 4))),
            Side::Left => ocat(spec_cb_write(tx, ty, true, 0, track.nr), Some(spec_ble_write(tx, ty, 1))),
            Side::Top => spec_cb_write(tx, ty, false, w as int, track.nr),
        }
    }
}

/// Source to its first track: from a logic element pin or from a pad.
#[verifier::opaque]
pub open spec fn spec_source_connections(source: Source, track: Track, w: u16, n_tiles: u16) -> Option<Seq<BitWrite>> {
    match source.1 {
        NodeMetaType::Pin => spec_source_from_ble(source, track, w),
        NodeMetaType::Pad => spec_source_from_pad(source, track, w, n_tiles),
        _ => None,
    }
}

/// Last track to its sink: a logic element pin or a pad.
#[verifier::opaque]
pub open spec fn spec_sink_connections(sink: Sink, track: Track, w: u16, n_tiles: u16) -> Option<Seq<BitWrite>> {
    match sink.1 {
        NodeMetaType::Pin => spec_sink_to_ble(sink, track, w),
        NodeMetaType::Pad => spec_sink_to_pad(sink, track, w, n_tiles),
        _ => None,
    }
}

/// Appends a connection block write at `base + nr`.
fn push_cb_write(ws: &mut Vec<BitWrite>, x: u32, y: u32, on_right: bool, base: u16, nr: u16) -> (ok: bool)
    ensures
        ok == spec_cb_write(x, y, on_right, base as int, nr) is Some,
        ok ==> final(ws)@ == old(ws)@ + spec_cb_write(x, y, on_right, base as int, nr)->0,
{
    match base.checked_add(nr) {
        Some(i) => {
            ws.push(BitWrite {
                x: x as usize,
                y: y as usize,
                field: if on_right { TileField::ConBlkRight } else { TileField::ConBlkTop },
                index: i as usize,
            });
            true
        },
        None => false,
    }
}

/// Appends a write for track `nr` of the top connection block of a
/// horizontal channel of width `w`, whose tracks run in reversed order.
fn push_cb_write_rev(ws: &mut Vec<BitWrite>, x: u32, y: u32, base: u16, nr: u16, w: u16) -> (ok: bool)
    ensures
        ok == spec_cb_write_rev(x, y, base as int, nr, w) is Some,
        ok ==> final(ws)@ == old(ws)@ + spec_cb_write_rev(x, y, base as int, nr, w)->0,
{
    if nr < w {
        push_cb_write(ws, x, y, false, base, w - 1 - nr)
    } else {
        false
    }
}

fn push_ble_write(ws: &mut Vec<BitWrite>, x: u32, y: u32, index: usize)
    ensures
        final(ws)@ == old(ws)@ + spec_ble_write(x, y, index),
{
    ws.push(BitWrite { x: x as usize, y: y as usize, field: TileField::Ble, index });
}

/// Connects a source logic element to its first track.
///
/// Connection block tracks are numbered from top to bottom in hardware, so a
/// horizontal track `nr` is bit `w - 1 - nr` of its section; the 'top' block
/// of a vertical channel lies to the left of it, where the numberings agree.
fn build_bitstream_source_from_ble(ws: &mut Vec<BitWrite>, source: &Source, track: &Track, cfg: &Config) -> (ok: bool)
    requires
        cfg.wf(),
    ensures
        ok == spec_source_from_ble(*source, *track, cfg.channel_width) is Some,
        ok ==> final(ws)@ == old(ws)@ + spec_source_from_ble(*source, *track, cfg.channel_width)->0,
{
    let src_x = source.0.0;
    let src_y = source.0.1;
    let tr_x = track.xy.0;
    let tr_y = track.xy.1;
    match track.orientation {
        XY::X => {
            if tr_y == src_y {
                push_cb_write_rev(ws, tr_x, tr_y, cfg.cb_bot_in_idx(), track.nr, cfg.channel_width)
            } else {
                push_cb_write_rev(ws, tr_x, tr_y, cfg.cb_top_in_idx(), track.nr, cfg.channel_width)
            }
        },
        XY::Y => {
            if tr_x == src_x {
                push_cb_write(ws, tr_x, tr_y, true, cfg.cb_bot_in_idx(), track.nr)
            } else {
                push_cb_write(ws, tr_x, tr_y, true, cfg.cb_top_in_idx(), track.nr)
            }
        },
    }
}

/// Connects the last track of a branch to its sink logic element, with the
/// track numbering of `build_bitstream_source_from_ble`.
fn build_bitstream_sink_to_ble(ws: &mut Vec<BitWrite>, sink: &Sink, track: &Track, cfg: &Config) -> (ok: bool)
    requires
        cfg.wf(),
    ensures
        ok == spec_sink_to_ble(*sink, *track, cfg.channel_width) is Some,
        ok ==> final(ws)@ == old(ws)@ + spec_sink_to_ble(*sink, *track, cfg.channel_width)->0,
{
    let sink_x = sink.0.0;
    let sink_y = sink.0.1;
    let tr_x = track.xy.0;
    let tr_y = track.xy.1;
    match track.orientation {
        XY::X => {
            if tr_y == sink_y {
                push_cb_write_rev(ws, tr_x, tr_y, cfg.cb_bot_out_idx(), track.nr, cfg.channel_width)
            } else {
                push_cb_write_rev(ws, tr_x, tr_y, cfg.cb_top_out_idx(), track.nr, cfg.channel_width)
            }
        },
        XY::Y => {
            if tr_x == sink_x {
                push_cb_write(ws, tr_x, tr_y, true, cfg.cb_bot_out_idx(), track.nr)
            } else {
                push_cb_write(ws, tr_x, tr_y, true, cfg.cb_top_out_idx(), track.nr)
            }
        },
    }
}

/// Connects a source pad to its first track; pads on the bottom and left
/// edges also program the logic element of the tile to pass the signal on.
fn build_bitstream_source_from_pad(ws: &mut Vec<BitWrite>, source: &Source, track: &Track, cfg: &Config) -> (ok: bool)
    requires
        cfg.wf(),
    ensures
        ok == spec_source_from_pad(*source, *track, cfg.channel_width, cfg.fpga_width) is Some,
        ok ==> final(ws)@ == old(ws)@ + spec_source_from_pad(*source, *track, cfg.channel_width, cfg.fpga_width)->0,
{
    let tr_x = track.xy.0;
    let tr_y = track.xy.1;
    let edges = crate::types::Block::try_get_edges(&source.0, cfg.n_tiles());
    if edges.len() == 0 {
        return false;
    }
    match edges[0] {
        Side::Right => push_cb_write(ws, tr_x, tr_y, true, cfg.cb_top_in_idx(), track.nr),
        Side::Bottom => {
            let ok = push_cb_write(ws, tr_x, tr_y, false, cfg.cb_bot_in_idx(), track.nr);
            if ok {
                push_ble_write(ws, tr_x, tr_y, 2);
                assert(ws@ =~= old(ws)@ + spec_source_from_pad(*source, *track, cfg.channel_width, cfg.fpga_width)->0);
            }
            ok
        },
        Side::Left => {
            let ok = push_cb_write(ws, tr_x, tr_y, true, cfg.cb_bot_in_idx(), track.nr);
            if ok {
                push_ble_write(ws, tr_x, tr_y, 4);
                assert(ws@ =~= old(ws)@ + spec_source_from_pad(*source, *track, cfg.channel_width, cfg.fpga_width)->0);
            }
            ok
        },
        Side::Top => push_cb_write(ws, tr_x, tr_y, false, cfg.cb_top_in_idx(), track.nr),
    }
}

/// Connects the last track of a branch to its sink pad.
fn build_bitstream_sink_to_pad(ws: &mut Vec<BitWrite>, sink: &Sink, track: &Track, cfg: &Config) -> (ok: bool)
    requires
        cfg.wf(),
    ensures
        ok == spec_sink_to_pad(*sink, *track, cfg.channel_width, cfg.fpga_width) is Some,
        ok ==> final(ws)@ == old(ws)@ + spec_sink_to_pad(*sink, *track, cfg.channel_width, cfg.fpga_width)->0,
{
    let tr_x = track.xy.0;
    let tr_y = track.xy.1;
    let edges = crate::types::Block::try_get_edges(&sink.0, cfg.n_tiles());
    if edges.len() == 0 {
        return false;
    }
    match edges[0] {
        Side::Right => push_cb_write(ws, tr_x, tr_y, true, cfg.cb_top_out_idx(), track.nr),
        Side::Bottom => {
            let ok = push_cb_write(ws, tr_x, tr_y, false, cfg.cb_bot_out_idx(), track.nr);
            if ok {
                push_ble_write(ws, tr_x, tr_y, 4);
                assert(ws@ =~= old(ws)@ + spec_sink_to_pad(*sink, *track, cfg.channel_width, cfg.fpga_width)->0);
            }
            ok
        },
        Side::Left => {
            let ok = push_cb_write(ws, tr_x, tr_y, true, cfg.cb_bot_out_idx(), track.nr);
            if ok {
                push_ble_write(ws, tr_x, tr_y, 1);
                assert(ws@ =~= old(ws)@ + spec_sink_to_pad(*sink, *track, cfg.channel_width, cfg.fpga_width)->0);
            }
            ok
        },
        Side::Top => push_cb_write(ws, tr_x, tr_y, false, cfg.cb_top_out_idx(), track.nr),
    }
}

/// Connects a net's source to its first track.
fn build_bitstream_source_connections(ws: &mut Vec<BitWrite>, source: &Source, track: &Track, cfg: &Config) -> (ok: bool)
    requires
        cfg.wf(),
    ensures
        ok == spec_source_connections(*source, *track, cfg.channel_width, cfg.fpga_width) is Some,
        ok ==> final(ws)@ == old(ws)@ + spec_source_connections(*source, *track, cfg.channel_width, cfg.fpga_width)->0,
{
    reveal(spec_source_connections);
    match source.1 {
        NodeMetaType::Pin => build_bitstream_source_from_ble(ws, source, track, cfg),
        NodeMetaType::Pad => build_bitstream_source_from_pad(ws, source, track, cfg),
        _ => false,
    }
}

/// Connects the last track of a branch to its sink.
fn build_bitstream_sink_connections(ws: &mut Vec<BitWrite>, sink: &Sink, track: &Track, cfg: &Config) -> (ok: bool)
    requires
        cfg.wf(),
    ensures
        ok == spec_sink_connections(*sink, *track, cfg.channel_width, cfg.fpga_width) is Some,
        ok ==> final(ws)@ == old(ws)@ + spec_sink_connections(*sink, *track, cfg.channel_width, cfg.fpga_width)->0,
{
    reveal(spec_sink_connections);
    match sink.1 {
        NodeMetaType::Pin => build_bitstream_sink_to_ble(ws, sink, track, cfg),
        NodeMetaType::Pad => build_bitstream_sink_to_pad(ws, sink, track, cfg),
        _ => false,
    }
}

// ---------------------------------------------------------------------------
// Routing: track to track through the switch blocks
// ---------------------------------------------------------------------------

/// The tile whose switch block joins `prev_track` to `this_track`.
///
/// Even tracks run up or right, odd tracks down or left. A track that runs
/// up or right leaves the switch block of the tile it starts in; when it
/// follows a track that runs the other way the block sits at the corner of
/// the two channels. `None` where two tracks of one orientation would turn.
pub open spec fn spec_sb_location(this_track: Track, prev_track: Track) -> Option<(u32, u32)> {
    let (tx, ty) = (this_track.xy.0, this_track.xy.1);
    let (px, py) = (prev_track.xy.0, prev_track.xy.1);
    if this_track.nr % 2 == 0 {
        if prev_track.nr % 2 == 1 {
            match (prev_track.orientation, this_track.orientation) {
                (XY::X, XY::Y) => Some((tx, py)),
                (XY::Y, XY::X) => Some((px, ty)),
                _ => None,
            }
        } else {
            Some((px, py))
        }
    } else {
        Some((tx, ty))
    }
}

/// The switch block bit that joins `prev_track` to `this_track`.
#[verifier::opaque]
pub open spec fn spec_switch_write(this_track: Track, prev_track: Track, w: u16) -> Option<Seq<BitWrite>> {
    match spec_sb_location(this_track, prev_track) {
        Some((x, y)) => {
            let sb = Point(x, y);
            match (spec_port_index(prev_track, sb, w), spec_port_index(this_track, sb, w)) {
                (Some(i), Some(o)) => match spec_connection_bit_index(i, o, w) {
                    Some(b) => Some(seq![BitWrite { x: x as usize, y: y as usize, field: TileField::SwitchBlock, index: b }]),
                    None => None,
                },
                _ => None,
            }
        },
        None => None,
    }
}

/// The switch block bits for the first `n` tracks of a branch.
pub open spec fn spec_switch_writes(tracks: Seq<Track>, n: int, w: u16) -> Option<Seq<BitWrite>>
    decreases n,
{
    if n <= 1 {
        Some(Seq::empty())
    } else {
        ocat(spec_switch_writes(tracks, n - 1, w), spec_switch_write(tracks[n - 1], tracks[n - 2], w))
    }
}

/// The bits of one branch: the source connection when the branch leaves the
/// net's output pin, the switch blocks along the tracks, the sink connection.
/// `None` when the branch has no track or no sink.
pub open spec fn spec_route_writes(source: Source, route: Route, w: u16, n_tiles: u16) -> Option<Seq<BitWrite>> {
    let tracks = route.tracks@;
    if tracks.len() == 0 {
        None
    } else {
        let first = if route.from_opin {
            spec_source_connections(source, tracks[0], w, n_tiles)
        } else {
            Some(Seq::empty())
        };
        let last = match route.sink {
            Some(sink) => spec_sink_connections(sink, tracks.last(), w, n_tiles),
            None => None,
        };
        ocat(ocat(first, spec_switch_writes(tracks, tracks.len() as int, w)), last)
    }
}

/// The bits of the first `n` branches of a net.
pub open spec fn spec_routes_writes(source: Source, routes: Seq<Route>, n: int, w: u16, n_tiles: u16) -> Option<Seq<BitWrite>>
    decreases n,
{
    if n <= 0 {
        Some(Seq::empty())
    } else {
        ocat(spec_routes_writes(source, routes, n - 1, w, n_tiles), spec_route_writes(source, routes[n - 1], w, n_tiles))
    }
}

/// The bits of the first `n` nets.
pub open spec fn spec_nets_writes(nets: Seq<RouteNet>, n: int, w: u16, n_tiles: u16) -> Option<Seq<BitWrite>>
    decreases n,
{
    if n <= 0 {
        Some(Seq::empty())
    } else {
        ocat(spec_nets_writes(nets, n - 1, w, n_tiles),
            spec_routes_writes(nets[n - 1].src, nets[n - 1].route_tree@, nets[n - 1].route_tree@.len() as int, w, n_tiles))
    }
}

// ---------------------------------------------------------------------------
// Look-up tables
// ---------------------------------------------------------------------------

/// The name under which an output pad is placed.
pub open spec fn spec_out_name(name: Seq<char>) -> Seq<char> {
    "out:"@ + name
}

/// The logic element bits of one look-up table: its true entries, in the
/// tile where its output is placed. A table whose output is placed only as an
/// output pad sets nothing; `None` when it is placed under neither name.
pub open spec fn spec_logic_block_writes(lb: LogicBlock, place: Seq<(String, Point)>) -> Option<Seq<BitWrite>> {
    match spec_point_of(place, lb.output@) {
        Some(p) => Some(Seq::new(lb.truth_idxs@.len(), |i: int| BitWrite {
            x: p.0 as usize,
            y: p.1 as usize,
            field: TileField::Ble,
            index: lb.truth_idxs@[i],
        })),
        None => if spec_point_of(place, spec_out_name(lb.output@)) is Some {
            Some(Seq::empty())
        } else {
            None
        },
    }
}

/// The bits of the first `n` look-up tables of a model.
pub open spec fn spec_blocks_writes(lbs: Seq<LogicBlock>, place: Seq<(String, Point)>, n: int) -> Option<Seq<BitWrite>>
    decreases n,
{
    if n <= 0 {
        Some(Seq::empty())
    } else {
        ocat(spec_blocks_writes(lbs, place, n - 1), spec_logic_block_writes(lbs[n - 1], place))
    }
}

/// The bits of the look-up tables of the first `n` models.
pub open spec fn spec_models_writes(models: Seq<Model>, place: Seq<(String, Point)>, n: int) -> Option<Seq<BitWrite>>
    decreases n,
{
    if n <= 0 {
        Some(Seq::empty())
    } else {
        ocat(spec_models_writes(models, place, n - 1),
            spec_blocks_writes(models[n - 1].logic@, place, models[n - 1].logic@.len() as int))
    }
}

/// Every bit the generator switches on: the routing of all nets, then the
/// look-up tables of all models. `None` for inputs on which generation fails.
pub open spec fn spec_bitstream_writes(nets: Seq<RouteNet>, models: Seq<Model>, place: Seq<(String, Point)>, cfg: Config) -> Option<Seq<BitWrite>> {
    ocat(spec_nets_writes(nets, nets.len() as int, cfg.channel_width, cfg.fpga_width),
        spec_models_writes(models, place, models.len() as int))
}

proof fn lemma_switch_writes_none(tracks: Seq<Track>, i: int, n: int, w: u16)
    requires i <= n, spec_switch_writes(tracks, i, w) is None,
    ensures spec_switch_writes(tracks, n, w) is None,
    decreases n - i,
{
    if i < n {
        lemma_switch_writes_none(tracks, i, n - 1, w);
    }
}

proof fn lemma_routes_writes_none(source: Source, routes: Seq<Route>, i: int, n: int, w: u16, nt: u16)
    requires i <= n, spec_routes_writes(source, routes, i, w, nt) is None,
    ensures spec_routes_writes(source, routes, n, w, nt) is None,
    decreases n - i,
{
    if i < n {
        lemma_routes_writes_none(source, routes, i, n - 1, w, nt);
    }
}

proof fn lemma_nets_writes_none(nets: Seq<RouteNet>, i: int, n: int, w: u16, nt: u16)
    requires i <= n, spec_nets_writes(nets, i, w, nt) is None,
    ensures spec_nets_writes(nets, n, w, nt) is None,
    decreases n - i,
{
    if i < n {
        lemma_nets_writes_none(nets, i, n - 1, w, nt);
    }
}

proof fn lemma_blocks_writes_none(lbs: Seq<LogicBlock>, place: Seq<(String, Point)>, i: int, n: int)
    requires i <= n, spec_blocks_writes(lbs, place, i) is None,
    ensures spec_blocks_writes(lbs, place, n) is None,
    decreases n - i,
{
    if i < n {
        lemma_blocks_writes_none(lbs, place, i, n - 1);
    }
}

proof fn lemma_models_writes_none(models: Seq<Model>, place: Seq<(String, Point)>, i: int, n: int)
    requires i <= n, spec_models_writes(models, place, i) is None,
    ensures spec_models_writes(models, place, n) is None,
    decreases n - i,
{
    if i < n {
        lemma_models_writes_none(models, place, i, n - 1);
    }
}

/// Connects two consecutive tracks of a branch in the switch block that joins them.
fn build_bitstream_routing_switch(ws: &mut Vec<BitWrite>, this_track: &Track, prev_track: &Track, cfg: &Config) -> (ok: bool)
    requires
        cfg.wf(),
    ensures
        ok == spec_switch_write(*this_track, *prev_track, cfg.channel_width) is Some,
        ok ==> final(ws)@ == old(ws)@ + spec_switch_write(*this_track, *prev_track, cfg.channel_width)->0,
{
    reveal(spec_switch_write);
    let t_x = this_track.xy.0;
    let t_y = this_track.xy.1;
    let p_x = prev_track.xy.0;
    let p_y = prev_track.xy.1;
    let (sb_x, sb_y): (u32, u32) = if this_track.nr % 2 == 0 {
        if prev_track.nr % 2 == 1 {
            match (prev_track.orientation, this_track.orientation) {
                (XY::X, XY::Y) => (t_x, p_y),
                (XY::Y, XY::X) => (p_x, t_y),
                _ => {
                    return false;
                },
            }
        } else {
            (p_x, p_y)
        }
    } else {
        (t_x, t_y)
    };
    let sb = Point(sb_x, sb_y);
    let w = cfg.ch_width();
    let in_port = match port_index(prev_track, &sb, w) {
        Some(p) => p,
        None => {
            return false;
        },
    };
    let out_port = match port_index(this_track, &sb, w) {
        Some(p) => p,
        None => {
            return false;
        },
    };
    match switch_bit_index(in_port, out_port, w) {
        Some(b) => {
            ws.push(BitWrite { x: sb_x as usize, y: sb_y as usize, field: TileField::SwitchBlock, index: b });
            true
        },
        None => false,
    }
}

/// The bits of one branch of a net.
fn build_bitstream_route(ws: &mut Vec<BitWrite>, source: &Source, route: &Route, cfg: &Config) -> (ok: bool)
    requires
        cfg.wf(),
    ensures
        ok == spec_route_writes(*source, *route, cfg.channel_width, cfg.fpga_width) is Some,
        ok ==> final(ws)@ == old(ws)@ + spec_route_writes(*source, *route, cfg.channel_width, cfg.fpga_width)->0,
{
    let ghost w = cfg.channel_width;
    let ghost nt = cfg.fpga_width;
    let tracks = &route.tracks;
    if tracks.len() == 0 {
        return false;
    }
    // source connection, when the branch leaves the output pin
    if route.from_opin {
        if !build_bitstream_source_connections(ws, source, &tracks[0], cfg) {
            return false;
        }
    }
    let ghost first_ws: Seq<BitWrite> = if route.from_opin {
        spec_source_connections(*source, tracks@[0], w, nt)->0
    } else {
        Seq::empty()
    };
    assert(ws@ =~= old(ws)@ + first_ws);
    // switch blocks
    let mut i: usize = 1;
    while i < tracks.len()
        invariant
            cfg.wf(),
            w == cfg.channel_width,
            1 <= i <= tracks@.len(),
            tracks@ == route.tracks@,
            nt == cfg.fpga_width,
            first_ws == (if route.from_opin {
                spec_source_connections(*source, tracks@[0], w, nt)->0
            } else {
                Seq::<BitWrite>::empty()
            }),
            route.from_opin ==> spec_source_connections(*source, tracks@[0], w, nt) is Some,
            spec_switch_writes(tracks@, i as int, w) is Some,
            ws@ == old(ws)@ + first_ws + spec_switch_writes(tracks@, i as int, w)->0,
        decreases tracks@.len() - i,
    {
        if !build_bitstream_routing_switch(ws, &tracks[i], &tracks[i - 1], cfg) {
            proof {
                lemma_switch_writes_none(tracks@, i as int + 1, tracks@.len() as int, w);
                let first = if route.from_opin {
                    spec_source_connections(*source, tracks@[0], w, nt)
                } else {
                    Some(Seq::empty())
                };
                assert(spec_switch_writes(tracks@, tracks@.len() as int, w) is None);
                let mid = ocat(first, spec_switch_writes(tracks@, tracks@.len() as int, w));
                assert(mid is None);
                let last = match route.sink {
                    Some(sink) => spec_sink_connections(sink, tracks@.last(), w, nt),
                    None => None,
                };
                assert(ocat(mid, last) is None);
                assert(spec_route_writes(*source, *route, w, nt) == ocat(mid, last));
            }
            return false;
        }
        proof {
            assert(ws@ =~= old(ws)@ + first_ws + spec_switch_writes(tracks@, i as int + 1, w)->0);
        }
        i = i + 1;
    }
    // sink connection
    let sink = match &route.sink {
        Some(s) => s,
        None => {
            return false;
        },
    };
    let last = &tracks[tracks.len() - 1];
    if !build_bitstream_sink_connections(ws, sink, last, cfg) {
        return false;
    }
    proof {
        let rw = spec_route_writes(*source, *route, w, nt);
        assert(ws@ =~= old(ws)@ + rw->0);
    }
    true
}

/// The bits of every branch of a net.
fn build_bitstream_routing_branches(ws: &mut Vec<BitWrite>, source: &Source, branches: &Vec<Route>, cfg: &Config) -> (ok: bool)
    requires
        cfg.wf(),
    ensures
        ok == spec_routes_writes(*source, branches@, branches@.len() as int, cfg.channel_width, cfg.fpga_width) is Some,
        ok ==> final(ws)@ == old(ws)@ + spec_routes_writes(*source, branches@, branches@.len() as int, cfg.channel_width, cfg.fpga_width)->0,
{
    let ghost w = cfg.channel_width;
    let ghost nt = cfg.fpga_width;
    let mut k: usize = 0;
    while k < branches.len()
        invariant
            cfg.wf(),
            w == cfg.channel_width,
            nt == cfg.fpga_width,
            k <= branches@.len(),
            spec_routes_writes(*source, branches@, k as int, w, nt) is Some,
            ws@ == old(ws)@ + spec_routes_writes(*source, branches@, k as int, w, nt)->0,
        decreases branches@.len() - k,
    {
        if !build_bitstream_route(ws, source, &branches[k], cfg) {
            proof { lemma_routes_writes_none(*source, branches@, k as int + 1, branches@.len() as int, w, nt); }
            return false;
        }
        proof {
            assert(ws@ =~= old(ws)@ + spec_routes_writes(*source, branches@, k as int + 1, w, nt)->0);
        }
        k = k + 1;
    }
    true
}

/// The bits of one look-up table (see `spec_logic_block_writes`).
fn plan_logic_block(ws: &mut Vec<BitWrite>, lb: &LogicBlock, place: &Placement) -> (ok: bool)
    ensures
        ok == spec_logic_block_writes(*lb, place.entries@) is Some,
        ok ==> final(ws)@ == old(ws)@ + spec_logic_block_writes(*lb, place.entries@)->0,
{
    match place.get(&lb.output) {
        Some(p) => {
            let ghost expected = spec_logic_block_writes(*lb, place.entries@)->0;
            let mut i: usize = 0;
            while i < lb.truth_idxs.len()
                invariant
                    i <= lb.truth_idxs@.len(),
                    spec_point_of(place.entries@, lb.output@) == Some(p),
                    expected == spec_logic_block_writes(*lb, place.entries@)->0,
                    ws@ == old(ws)@ + expected.subrange(0, i as int),
                decreases lb.truth_idxs@.len() - i,
            {
                ws.push(BitWrite { x: p.0 as usize, y: p.1 as usize, field: TileField::Ble, index: lb.truth_idxs[i] });
                assert(ws@ =~= old(ws)@ + expected.subrange(0, i + 1));
                i = i + 1;
            }
            assert(expected.subrange(0, i as int) =~= expected);
            true
        },
        None => {
            let name = String::from_str("out:").concat(lb.output.as_str());
            assert(ws@ =~= old(ws)@ + Seq::<BitWrite>::empty());
            place.get(&name).is_some()
        },
    }
}

/// The bits of every look-up table of every model.
fn plan_logic_blocks(ws: &mut Vec<BitWrite>, models: &Vec<Model>, place: &Placement) -> (ok: bool)
    ensures
        ok == spec_models_writes(models@, place.entries@, models@.len() as int) is Some,
        ok ==> final(ws)@ == old(ws)@ + spec_models_writes(models@, place.entries@, models@.len() as int)->0,
{
    let mut m: usize = 0;
    while m < models.len()
        invariant
            m <= models@.len(),
            spec_models_writes(models@, place.entries@, m as int) is Some,
            ws@ == old(ws)@ + spec_models_writes(models@, place.entries@, m as int)->0,
        decreases models@.len() - m,
    {
        let lbs = &models[m].logic;
        let ghost before = ws@;
        let mut b: usize = 0;
        while b < lbs.len()
            invariant
                b <= lbs@.len(),
                m < models@.len(),
                spec_models_writes(models@, place.entries@, m as int) is Some,
                before == old(ws)@ + spec_models_writes(models@, place.entries@, m as int)->0,
                lbs@ == models@[m as int].logic@,
                spec_blocks_writes(lbs@, place.entries@, b as int) is Some,
                ws@ == before + spec_blocks_writes(lbs@, place.entries@, b as int)->0,
            decreases lbs@.len() - b,
        {
            if !plan_logic_block(ws, &lbs[b], place) {
                proof {
                    lemma_blocks_writes_none(lbs@, place.entries@, b as int + 1, lbs@.len() as int);
                    lemma_models_writes_none(models@, place.entries@, m as int + 1, models@.len() as int);
                }
                return false;
            }
            assert(ws@ =~= before + spec_blocks_writes(lbs@, place.entries@, b as int + 1)->0);
            b = b + 1;
        }
        assert(ws@ =~= old(ws)@ + spec_models_writes(models@, place.entries@, m as int + 1)->0);
        m = m + 1;
    }
    true
}

/// The routing bits of every net.
fn plan_nets(ws: &mut Vec<BitWrite>, nets: &Vec<RouteNet>, cfg: &Config) -> (ok: bool)
    requires
        cfg.wf(),
    ensures
        ok == spec_nets_writes(nets@, nets@.len() as int, cfg.channel_width, cfg.fpga_width) is Some,
        ok ==> final(ws)@ == old(ws)@ + spec_nets_writes(nets@, nets@.len() as int, cfg.channel_width, cfg.fpga_width)->0,
{
    let ghost w = cfg.channel_width;
    let ghost nt = cfg.fpga_width;
    let mut k: usize = 0;
    while k < nets.len()
        invariant
            cfg.wf(),
            w == cfg.channel_width,
            nt == cfg.fpga_width,
            k <= nets@.len(),
            spec_nets_writes(nets@, k as int, w, nt) is Some,
            ws@ == old(ws)@ + spec_nets_writes(nets@, k as int, w, nt)->0,
        decreases nets@.len() - k,
    {
        let net = &nets[k];
        if !build_bitstream_routing_branches(ws, &net.src, &net.route_tree, cfg) {
            proof { lemma_nets_writes_none(nets@, k as int + 1, nets@.len() as int, w, nt); }
            return false;
        }
        assert(ws@ =~= old(ws)@ + spec_nets_writes(nets@, k as int + 1, w, nt)->0);
        k = k + 1;
    }
    true
}

/// Every bit that generation switches on (see `spec_bitstream_writes`), or
/// `None` for inputs on which generation fails.
pub fn plan_bitstream(nets: &Vec<RouteNet>, models: &Vec<Model>, place: &Placement, cfg: &Config) -> (r: Option<Vec<BitWrite>>)
    requires
        cfg.wf(),
    ensures
        match r {
            Some(ws) => spec_bitstream_writes(nets@, models@, place.entries@, *cfg) == Some(ws@),
            None => spec_bitstream_writes(nets@, models@, place.entries@, *cfg) is None,
        },
{
    let mut ws: Vec<BitWrite> = Vec::new();
    if !plan_nets(&mut ws, nets, cfg) {
        return None;
    }
    let ghost mid = ws@;
    if !plan_logic_blocks(&mut ws, models, place) {
        return None;
    }
    assert(ws@ =~= spec_bitstream_writes(nets@, models@, place.entries@, *cfg)->0);
    Some(ws)
}

/// Generates the bitstream: switches on, in the tiles, the bits that route
/// every net and the bits of every look-up table of every model.
///
/// The switch block joining two tracks is looked up in `tiles[y][x]` by its
/// grid position, so the tile at `[y][x]` is taken to stand at `Point(x, y)`
/// (as in a matrix made by `build_tile_grid`).
pub fn build_bitstream(tiles: &mut Vec<Vec<Tile>>, nets: &Vec<RouteNet>, models: &Vec<Model>, place: &Placement, cfg: &Config)
    requires
        cfg.wf(),
        spec_bitstream_writes(nets@, models@, place.entries@, *cfg) matches Some(ws)
            && writes_fit(old(tiles).deep_view(), ws),
    ensures
        final(tiles).deep_view() == spec_apply_writes(old(tiles).deep_view(),
            spec_bitstream_writes(nets@, models@, place.entries@, *cfg)->0),
{
    match plan_bitstream(nets, models, place, cfg) {
        Some(ws) => apply_bitstream_writes(tiles, &ws),
        None => {},
    }
}

/// Generates the bitstream when generation succeeds for these inputs and
/// every bit it names exists; otherwise leaves the tiles as they are.
pub fn try_build_bitstream(tiles: &mut Vec<Vec<Tile>>, nets: &Vec<RouteNet>, models: &Vec<Model>, place: &Placement, cfg: &Config) -> (ok: bool)
    requires
        cfg.wf(),
    ensures
        ok == (spec_bitstream_writes(nets@, models@, place.entries@, *cfg) matches Some(ws)
            && writes_fit(old(tiles).deep_view(), ws)),
        ok ==> final(tiles).deep_view() == spec_apply_writes(old(tiles).deep_view(),
            spec_bitstream_writes(nets@, models@, place.entries@, *cfg)->0),
        !ok ==> final(tiles).deep_view() == old(tiles).deep_view(),
{
    match plan_bitstream(nets, models, place, cfg) {
        Some(ws) => {
            if writes_fit_tiles(tiles, &ws) {
                apply_bitstream_writes(tiles, &ws);
                true
            } else {
                false
            }
        },
        None => false,
    }
}

/// Writes the look-up tables of every model into the logic elements of the
/// tiles where their outputs are placed.
pub fn build_bitstream_logic_blocks(tiles: &mut Vec<Vec<Tile>>, models: &Vec<Model>, place: &Placement)
    requires
        spec_models_writes(models@, place.entries@, models@.len() as int) matches Some(ws)
            && writes_fit(old(tiles).deep_view(), ws),
    ensures
        final(tiles).deep_view() == spec_apply_writes(old(tiles).deep_view(),
            spec_models_writes(models@, place.entries@, models@.len() as int)->0),
{
    let mut ws: Vec<BitWrite> = Vec::new();
    if plan_logic_blocks(&mut ws, models, place) {
        assert(ws@ =~= spec_models_writes(models@, place.entries@, models@.len() as int)->0);
        apply_bitstream_writes(tiles, &ws);
    }
}

/// The content of a fresh tile matrix for `cfg`: `n_tiles` rows of
/// `n_tiles` tiles, the tile at `[y][x]` standing at `Point(x, y)` with every
/// bit off.
pub open spec fn spec_fresh_grid(cfg: Config) -> GridView {
    let n = cfg.fpga_width as nat;
    Seq::new(n, |y: int| Seq::new(n, |x: int| TileView {
        xy: Point(x as u32, y as u32),
        sw: crate::tile::falses((3 * 4 * cfg.channel_width / 2) as nat),
        top: crate::tile::falses((4 * cfg.channel_width * cfg.n_rail) as nat),
        right: crate::tile::falses((4 * cfg.channel_width * cfg.n_rail) as nat),
        ble: crate::tile::falses((vstd::arithmetic::power2::pow2(cfg.lut_k as nat) + cfg.ble_clk_en_size) as nat),
    }))
}

/// A tile matrix for `cfg` with every programming bit off (see `spec_fresh_grid`).
pub fn build_tile_grid(cfg: &Config) -> (r: Vec<Vec<Tile>>)
    requires
        cfg.wf(),
    ensures
        r.deep_view() == spec_fresh_grid(*cfg),
{
    let n = cfg.n_tiles();
    let mut tiles: Vec<Vec<Tile>> = Vec::new();
    let mut y: u16 = 0;
    while y < n
        invariant
            cfg.wf(),
            n == cfg.fpga_width,
            y <= n,
            tiles.deep_view() =~= spec_fresh_grid(*cfg).subrange(0, y as int),
        decreases n - y,
    {
        let mut row: Vec<Tile> = Vec::new();
        let mut x: u16 = 0;
        while x < n
            invariant
                cfg.wf(),
                n == cfg.fpga_width,
                x <= n,
                y < n,
                row.deep_view() =~= spec_fresh_grid(*cfg)[y as int].subrange(0, x as int),
            decreases n - x,
        {
            let t = Tile::new(Point(x as u32, y as u32), cfg);
            let ghost old_row = row.deep_view();
            row.push(t);
            proof {
                assert(row.deep_view() =~= old_row.push(t.deep_view()));
                assert(t.deep_view() == spec_fresh_grid(*cfg)[y as int][x as int]);
            }
            x = x + 1;
        }
        let ghost old_tiles = tiles.deep_view();
        tiles.push(row);
        proof {
            assert(tiles.deep_view() =~= old_tiles.push(row.deep_view()));
            assert(row.deep_view() =~= spec_fresh_grid(*cfg)[y as int]);
        }
        y = y + 1;
    }
    tiles
}

// ---------------------------------------------------------------------------
// Laws
// ---------------------------------------------------------------------------

/// Bit `i` of group `f` of tile `[y][x]` exists in `g`.
pub open spec fn bit_in_range(g: GridView, y: int, x: int, f: TileField, i: int) -> bool {
    0 <= y < g.len() && 0 <= x < g[y].len() && 0 <= i < spec_field(g[y][x], f).len()
}

/// Some write of `ws` names bit `i` of group `f` of tile `[y][x]`.
pub open spec fn written(ws: Seq<BitWrite>, y: int, x: int, f: TileField, i: int) -> bool {
    exists|k: int| 0 <= k < ws.len() && write_names(#[trigger] ws[k], y, x, f, i)
}

/// `w` names bit `i` of group `f` of tile `[y][x]`.
pub open spec fn write_names(w: BitWrite, y: int, x: int, f: TileField, i: int) -> bool {
    w.y == y && w.x == x && w.field == f && w.index == i
}

proof fn lemma_apply_write_bit(h: GridView, w: BitWrite, y: int, x: int, f: TileField, i: int)
    requires
        0 <= y, 0 <= x, 0 <= i,
    ensures
        spec_bit(spec_apply_write(h, w), y, x, f, i) == (spec_bit(h, y, x, f, i)
            || (bit_in_range(h, y, x, f, i) && write_names(w, y, x, f, i))),
{
    lemma_apply_write_shape(h, w);
    if write_fits(h, w) {
        let h2 = spec_apply_write(h, w);
        if bit_in_range(h, y, x, f, i) {
            if w.y as int == y && w.x as int == x {
                let t = h[y][x];
                let t2 = spec_set_field(t, w.field, spec_field(t, w.field).update(w.index as int, true));
                assert(h2[y][x] == t2);
                if w.field == f {
                    assert(spec_field(t2, f) == spec_field(t, f).update(w.index as int, true));
                } else {
                    assert(spec_field(t2, f) == spec_field(t, f));
                }
            } else {
                assert(h2[y][x] == h[y][x]);
            }
        }
    }
}

/// The bits of `spec_apply_writes(g, ws)`: those of `g`, and the existing
/// bits that `ws` names.
pub proof fn lemma_apply_writes_bit(g: GridView, ws: Seq<BitWrite>, y: int, x: int, f: TileField, i: int)
    requires
        0 <= y, 0 <= x, 0 <= i,
    ensures
        spec_bit(spec_apply_writes(g, ws), y, x, f, i) == (spec_bit(g, y, x, f, i)
            || (bit_in_range(g, y, x, f, i) && written(ws, y, x, f, i))),
    decreases ws.len(),
{
    if ws.len() == 0 {
        assert(!written(ws, y, x, f, i));
    } else {
        let pre = ws.drop_last();
        lemma_apply_writes_bit(g, pre, y, x, f, i);
        let h = spec_apply_writes(g, pre);
        lemma_apply_writes_shape(g, pre);
        lemma_apply_write_bit(h, ws.last(), y, x, f, i);
        assert(bit_in_range(h, y, x, f, i) == bit_in_range(g, y, x, f, i));
        if written(ws, y, x, f, i) {
            let k = choose|k: int| 0 <= k < ws.len() && write_names(#[trigger] ws[k], y, x, f, i);
            if k < ws.len() - 1 {
                assert(pre[k] == ws[k]);
                assert(written(pre, y, x, f, i));
            }
        }
        if written(pre, y, x, f, i) {
            let k = choose|k: int| 0 <= k < pre.len() && write_names(#[trigger] pre[k], y, x, f, i);
            assert(ws[k] == pre[k]);
        }
        if write_names(ws.last(), y, x, f, i) {
            assert(ws[ws.len() - 1] == ws.last());
        }
    }
}

/// Two grids of the same shape with the same bits are equal.
pub proof fn lemma_grid_ext(g1: GridView, g2: GridView)
    requires
        same_shape(g1, g2),
        forall|y: int, x: int, f: TileField, i: int| 0 <= y && 0 <= x && 0 <= i ==>
            #[trigger] spec_bit(g1, y, x, f, i) == spec_bit(g2, y, x, f, i),
    ensures
        g1 == g2,
{
    assert forall|y: int| 0 <= y < g1.len() implies g1[y] =~= g2[y] by {
        assert forall|x: int| 0 <= x < g1[y].len() implies g1[y][x] == g2[y][x] by {
            let t1 = g1[y][x];
            let t2 = g2[y][x];
            assert forall|i: int| 0 <= i < t1.sw.len() implies t1.sw[i] == t2.sw[i] by {
                assert(spec_bit(g1, y, x, TileField::SwitchBlock, i) == spec_bit(g2, y, x, TileField::SwitchBlock, i));
            }
            assert forall|i: int| 0 <= i < t1.top.len() implies t1.top[i] == t2.top[i] by {
                assert(spec_bit(g1, y, x, TileField::ConBlkTop, i) == spec_bit(g2, y, x, TileField::ConBlkTop, i));
            }
            assert forall|i: int| 0 <= i < t1.right.len() implies t1.right[i] == t2.right[i] by {
                assert(spec_bit(g1, y, x, TileField::ConBlkRight, i) == spec_bit(g2, y, x, TileField::ConBlkRight, i));
            }
            assert forall|i: int| 0 <= i < t1.ble.len() implies t1.ble[i] == t2.ble[i] by {
                assert(spec_bit(g1, y, x, TileField::Ble, i) == spec_bit(g2, y, x, TileField::Ble, i));
            }
            assert(t1.sw =~= t2.sw);
            assert(t1.top =~= t2.top);
            assert(t1.right =~= t2.right);
            assert(t1.ble =~= t2.ble);
        }
    }
    assert(g1 =~= g2);
}

/// Generation only switches bits on: every bit of the result is a bit that
/// was on before or a bit that generation names, the tile matrix keeps its
/// shape, and no bit that was on is switched off.
pub proof fn law_bitstream_only_switches_bits_on(g: GridView, nets: Seq<RouteNet>, models: Seq<Model>, place: Seq<(String, Point)>, cfg: Config)
    requires
        spec_bitstream_writes(nets, models, place, cfg) is Some,
    ensures
        ({
            let ws = spec_bitstream_writes(nets, models, place, cfg)->0;
            let r = spec_apply_writes(g, ws);
            &&& same_shape(g, r)
            &&& forall|y: int, x: int, f: TileField, i: int| 0 <= y && 0 <= x && 0 <= i ==>
                #[trigger] spec_bit(r, y, x, f, i) == (spec_bit(g, y, x, f, i)
                    || (bit_in_range(g, y, x, f, i) && written(ws, y, x, f, i)))
            &&& forall|y: int, x: int, f: TileField, i: int| 0 <= y && 0 <= x && 0 <= i
                && #[trigger] spec_bit(g, y, x, f, i) ==> spec_bit(r, y, x, f, i)
        }),
{
    let ws = spec_bitstream_writes(nets, models, place, cfg)->0;
    lemma_apply_writes_shape(g, ws);
    assert forall|y: int, x: int, f: TileField, i: int| 0 <= y && 0 <= x && 0 <= i implies
        #[trigger] spec_bit(spec_apply_writes(g, ws), y, x, f, i) == (spec_bit(g, y, x, f, i)
            || (bit_in_range(g, y, x, f, i) && written(ws, y, x, f, i))) by {
        lemma_apply_writes_bit(g, ws, y, x, f, i);
    }
    assert forall|y: int, x: int, f: TileField, i: int| 0 <= y && 0 <= x && 0 <= i
        && #[trigger] spec_bit(g, y, x, f, i) implies spec_bit(spec_apply_writes(g, ws), y, x, f, i) by {
        lemma_apply_writes_bit(g, ws, y, x, f, i);
    }
}

/// Switching on the same bits twice gives the tiles that switching them on
/// once gives.
pub proof fn lemma_apply_writes_idempotent(g: GridView, ws: Seq<BitWrite>)
    ensures
        spec_apply_writes(spec_apply_writes(g, ws), ws) == spec_apply_writes(g, ws),
{
    let r1 = spec_apply_writes(g, ws);
    let r2 = spec_apply_writes(r1, ws);
    lemma_apply_writes_shape(g, ws);
    lemma_apply_writes_shape(r1, ws);
    assert forall|y: int, x: int, f: TileField, i: int| 0 <= y && 0 <= x && 0 <= i implies
        #[trigger] spec_bit(r2, y, x, f, i) == spec_bit(r1, y, x, f, i) by {
        lemma_apply_writes_bit(g, ws, y, x, f, i);
        lemma_apply_writes_bit(r1, ws, y, x, f, i);
    }
    assert(same_shape(r2, r1));
    lemma_grid_ext(r2, r1);
}

/// The order of two lists of writes does not matter.
pub proof fn lemma_apply_writes_commute(g: GridView, a: Seq<BitWrite>, b: Seq<BitWrite>)
    ensures
        spec_apply_writes(g, a + b) == spec_apply_writes(g, b + a),
{
    let r1 = spec_apply_writes(g, a + b);
    let r2 = spec_apply_writes(g, b + a);
    lemma_apply_writes_shape(g, a + b);
    lemma_apply_writes_shape(g, b + a);
    assert forall|y: int, x: int, f: TileField, i: int| 0 <= y && 0 <= x && 0 <= i implies
        #[trigger] spec_bit(r1, y, x, f, i) == spec_bit(r2, y, x, f, i) by {
        lemma_apply_writes_bit(g, a + b, y, x, f, i);
        lemma_apply_writes_bit(g, b + a, y, x, f, i);
        if written(a + b, y, x, f, i) {
            let k = choose|k: int| 0 <= k < (a + b).len() && write_names(#[trigger] (a + b)[k], y, x, f, i);
            if k < a.len() {
                assert((b + a)[b.len() + k] == (a + b)[k]);
            } else {
                assert((b + a)[k - a.len()] == (a + b)[k]);
            }
        }
        if written(b + a, y, x, f, i) {
            let k = choose|k: int| 0 <= k < (b + a).len() && write_names(#[trigger] (b + a)[k], y, x, f, i);
            if k < b.len() {
                assert((a + b)[a.len() + k] == (b + a)[k]);
            } else {
                assert((a + b)[k - b.len()] == (b + a)[k]);
            }
        }
    }
    lemma_same_shape_both(g, r1, r2);
    lemma_grid_ext(r1, r2);
}

/// Generating the bitstream a second time changes nothing.
pub proof fn law_bitstream_idempotent(g: GridView, nets: Seq<RouteNet>, models: Seq<Model>, place: Seq<(String, Point)>, cfg: Config)
    requires
        spec_bitstream_writes(nets, models, place, cfg) is Some,
    ensures
        ({
            let ws = spec_bitstream_writes(nets, models, place, cfg)->0;
            spec_apply_writes(spec_apply_writes(g, ws), ws) == spec_apply_writes(g, ws)
        }),
{
    lemma_apply_writes_idempotent(g, spec_bitstream_writes(nets, models, place, cfg)->0);
}

/// Writing the look-up tables first and routing the nets afterwards gives
/// the tiles that generation gives (which routes first).
pub proof fn law_bitstream_tables_then_routing(g: GridView, nets: Seq<RouteNet>, models: Seq<Model>, place: Seq<(String, Point)>, cfg: Config)
    requires
        spec_bitstream_writes(nets, models, place, cfg) is Some,
    ensures
        ({
            let routing = spec_nets_writes(nets, nets.len() as int, cfg.channel_width, cfg.fpga_width)->0;
            let tables = spec_models_writes(models, place, models.len() as int)->0;
            spec_apply_writes(spec_apply_writes(g, tables), routing)
                == spec_apply_writes(g, spec_bitstream_writes(nets, models, place, cfg)->0)
        }),
{
    let routing = spec_nets_writes(nets, nets.len() as int, cfg.channel_width, cfg.fpga_width)->0;
    let tables = spec_models_writes(models, place, models.len() as int)->0;
    lemma_apply_writes_append(g, tables, routing);
    lemma_apply_writes_commute(g, tables, routing);
}

proof fn lemma_ocat_contains(a: Option<Seq<BitWrite>>, b: Option<Seq<BitWrite>>)
    requires
        ocat(a, b) is Some,
    ensures
        a is Some && b is Some,
        forall|w: BitWrite| a->0.contains(w) ==> #[trigger] ocat(a, b)->0.contains(w),
        forall|w: BitWrite| b->0.contains(w) ==> #[trigger] ocat(a, b)->0.contains(w),
{
    let (x, y) = (a->0, b->0);
    assert forall|w: BitWrite| x.contains(w) implies #[trigger] (x + y).contains(w) by {
        let j = choose|j: int| 0 <= j < x.len() && x[j] == w;
        assert((x + y)[j] == w);
    }
    assert forall|w: BitWrite| y.contains(w) implies #[trigger] (x + y).contains(w) by {
        let j = choose|j: int| 0 <= j < y.len() && y[j] == w;
        assert((x + y)[x.len() + j] == w);
    }
}

proof fn lemma_blocks_contain(lbs: Seq<LogicBlock>, place: Seq<(String, Point)>, n: int, b: int)
    requires
        0 <= b < n,
        spec_blocks_writes(lbs, place, n) is Some,
    ensures
        spec_logic_block_writes(lbs[b], place) is Some,
        forall|w: BitWrite| spec_logic_block_writes(lbs[b], place)->0.contains(w)
            ==> #[trigger] spec_blocks_writes(lbs, place, n)->0.contains(w),
    decreases n,
{
    lemma_ocat_contains(spec_blocks_writes(lbs, place, n - 1), spec_logic_block_writes(lbs[n - 1], place));
    if b < n - 1 {
        lemma_blocks_contain(lbs, place, n - 1, b);
    }
}

proof fn lemma_models_contain(models: Seq<Model>, place: Seq<(String, Point)>, n: int, m: int, b: int)
    requires
        0 <= m < n,
        0 <= b < models[m].logic@.len(),
        spec_models_writes(models, place, n) is Some,
    ensures
        spec_logic_block_writes(models[m].logic@[b], place) is Some,
        forall|w: BitWrite| spec_logic_block_writes(models[m].logic@[b], place)->0.contains(w)
            ==> #[trigger] spec_models_writes(models, place, n)->0.contains(w),
    decreases n,
{
    let last = spec_blocks_writes(models[n - 1].logic@, place, models[n - 1].logic@.len() as int);
    lemma_ocat_contains(spec_models_writes(models, place, n - 1), last);
    if m < n - 1 {
        lemma_models_contain(models, place, n - 1, m, b);
    } else {
        lemma_blocks_contain(models[m].logic@, place, models[m].logic@.len() as int, b);
    }
}

/// Every look-up table ends up in the logic element of the tile where its
/// output is placed: for each of its true entries, that bit is on after
/// generation (where the tile has such a bit).
pub proof fn law_tables_at_their_outputs(g: GridView, nets: Seq<RouteNet>, models: Seq<Model>, place: Seq<(String, Point)>, cfg: Config,
    m: int, b: int, k: int)
    requires
        spec_bitstream_writes(nets, models, place, cfg) is Some,
        0 <= m < models.len(),
        0 <= b < models[m].logic@.len(),
        0 <= k < models[m].logic@[b].truth_idxs@.len(),
        spec_point_of(place, models[m].logic@[b].output@) is Some,
    ensures
        ({
            let p = spec_point_of(place, models[m].logic@[b].output@)->0;
            let i = models[m].logic@[b].truth_idxs@[k] as int;
            bit_in_range(g, p.1 as int, p.0 as int, TileField::Ble, i)
                ==> spec_bit(spec_apply_writes(g, spec_bitstream_writes(nets, models, place, cfg)->0),
                    p.1 as int, p.0 as int, TileField::Ble, i)
        }),
{
    let lb = models[m].logic@[b];
    let p = spec_point_of(place, lb.output@)->0;
    let i = lb.truth_idxs@[k] as int;
    let ws = spec_bitstream_writes(nets, models, place, cfg)->0;
    let routing = spec_nets_writes(nets, nets.len() as int, cfg.channel_width, cfg.fpga_width);
    let tables = spec_models_writes(models, place, models.len() as int);
    lemma_ocat_contains(routing, tables);
    lemma_models_contain(models, place, models.len() as int, m, b);
    let lw = spec_logic_block_writes(lb, place)->0;
    let w0 = BitWrite { x: p.0 as usize, y: p.1 as usize, field: TileField::Ble, index: lb.truth_idxs@[k] };
    assert(lw[k] == w0);
    assert(lw.contains(w0));
    assert(tables->0.contains(w0));
    assert(ws.contains(w0));
    let j = choose|j: int| 0 <= j < ws.len() && ws[j] == w0;
    assert(write_names(ws[j], p.1 as int, p.0 as int, TileField::Ble, i));
    assert(written(ws, p.1 as int, p.0 as int, TileField::Ble, i));
    lemma_apply_writes_bit(g, ws, p.1 as int, p.0 as int, TileField::Ble, i);
}

// ---------------------------------------------------------------------------
// Laws of the connection and routing writes
// ---------------------------------------------------------------------------

/// Driving a track from a logic element and driving that element from the
/// same track program the same connection block of the same tile: the
/// source's bit lies in an input section (`2w..4w`) exactly `2w` above the
/// sink's bit in the matching output section (`0..2w`).
pub proof fn law_ble_source_sits_two_widths_above_sink(source: Source, sink: Sink, track: Track, cfg: Config)
    requires
        cfg.wf(),
        source.0 == sink.0,
        track.nr < cfg.channel_width,
    ensures
        ({
            let w = cfg.channel_width;
            &&& spec_source_from_ble(source, track, w) matches Some(a)
            &&& spec_sink_to_ble(sink, track, w) matches Some(b)
            &&& a.len() == 1 && b.len() == 1
            &&& a[0].x == b[0].x && a[0].y == b[0].y && a[0].field == b[0].field
            &&& b[0].index < 2 * w
            &&& a[0].index == b[0].index + 2 * w
        }),
{
}

/// The same holds of pads: a source pad and a sink pad at one point on an
/// edge program the same connection block of the same tile through one
/// track, the source's bit `2w` above the sink's.
pub proof fn law_pad_source_sits_two_widths_above_sink(source: Source, sink: Sink, track: Track, cfg: Config)
    requires
        cfg.wf(),
        source.0 == sink.0,
    ensures
        ({
            let w = cfg.channel_width;
            let n = cfg.fpga_width;
            &&& spec_edges(source.0, n).len() > 0 && track.nr < w
                ==> spec_source_from_pad(source, track, w, n) is Some
            &&& spec_source_from_pad(source, track, w, n) matches Some(a) ==> {
                &&& spec_sink_to_pad(sink, track, w, n) matches Some(b)
                &&& a.len() == b.len() && a.len() >= 1
                &&& a[0].x == b[0].x && a[0].y == b[0].y && a[0].field == b[0].field
                &&& b[0].index < 2 * w + track.nr
                &&& a[0].index == b[0].index + 2 * w
            }
        }),
{
}

/// The source connection goes to the logic element writer for a pin and to
/// the pad writer for a pad; any other kind of source cannot be connected.
pub proof fn law_source_connections_dispatch(source: Source, track: Track, w: u16, n_tiles: u16)
    ensures
        source.1 is Pin ==> spec_source_connections(source, track, w, n_tiles) == spec_source_from_ble(source, track, w),
        source.1 is Pad ==> spec_source_connections(source, track, w, n_tiles) == spec_source_from_pad(source, track, w, n_tiles),
        !(source.1 is Pin) && !(source.1 is Pad) ==> spec_source_connections(source, track, w, n_tiles) is None,
{
    reveal(spec_source_connections);
}

/// The sink connection goes to the logic element writer for a pin and to
/// the pad writer for a pad; any other kind of sink cannot be connected.
pub proof fn law_sink_connections_dispatch(sink: Sink, track: Track, w: u16, n_tiles: u16)
    ensures
        sink.1 is Pin ==> spec_sink_connections(sink, track, w, n_tiles) == spec_sink_to_ble(sink, track, w),
        sink.1 is Pad ==> spec_sink_connections(sink, track, w, n_tiles) == spec_sink_to_pad(sink, track, w, n_tiles),
        !(sink.1 is Pin) && !(sink.1 is Pad) ==> spec_sink_connections(sink, track, w, n_tiles) is None,
{
    reveal(spec_sink_connections);
}

/// A branch is programmed in order: its source connection (when it leaves
/// the net's output pin), then the switch between each track and the next,
/// then its sink connection.
pub proof fn law_route_writes_in_order(g: GridView, source: Source, route: Route, w: u16, n_tiles: u16)
    requires
        spec_route_writes(source, route, w, n_tiles) is Some,
    ensures
        ({
            let tracks = route.tracks@;
            &&& tracks.len() > 0 && route.sink is Some
            &&& route.from_opin ==> spec_source_connections(source, tracks[0], w, n_tiles) is Some
            &&& spec_switch_writes(tracks, tracks.len() as int, w) is Some
            &&& spec_sink_connections(route.sink->0, tracks.last(), w, n_tiles) is Some
            &&& {
                let first = if route.from_opin { spec_source_connections(source, tracks[0], w, n_tiles)->0 } else { Seq::empty() };
                let after_source = spec_apply_writes(g, first);
                let after_switches = spec_apply_writes(after_source, spec_switch_writes(tracks, tracks.len() as int, w)->0);
                spec_apply_writes(g, spec_route_writes(source, route, w, n_tiles)->0)
                    == spec_apply_writes(after_switches, spec_sink_connections(route.sink->0, tracks.last(), w, n_tiles)->0)
            }
        }),
{
    let tracks = route.tracks@;
    let first = if route.from_opin { spec_source_connections(source, tracks[0], w, n_tiles)->0 } else { Seq::empty() };
    let sw = spec_switch_writes(tracks, tracks.len() as int, w)->0;
    let last = spec_sink_connections(route.sink->0, tracks.last(), w, n_tiles)->0;
    lemma_apply_writes_append(g, first, sw);
    lemma_apply_writes_append(g, first + sw, last);
}

/// The switches of a branch are programmed track by track: the first `n`
/// tracks' switches, then the one between track `n - 1` and track `n`.
pub proof fn law_switch_writes_track_by_track(g: GridView, tracks: Seq<Track>, n: int, w: u16)
    requires
        2 <= n,
        spec_switch_writes(tracks, n, w) is Some,
    ensures
        spec_switch_writes(tracks, n - 1, w) is Some,
        spec_switch_write(tracks[n - 1], tracks[n - 2], w) is Some,
        spec_apply_writes(g, spec_switch_writes(tracks, n, w)->0)
            == spec_apply_writes(spec_apply_writes(g, spec_switch_writes(tracks, n - 1, w)->0),
                spec_switch_write(tracks[n - 1], tracks[n - 2], w)->0),
{
    lemma_apply_writes_append(g, spec_switch_writes(tracks, n - 1, w)->0, spec_switch_write(tracks[n - 1], tracks[n - 2], w)->0);
}

/// The branches of a net are programmed one after the other, in order.
pub proof fn law_routes_writes_branch_by_branch(g: GridView, source: Source, routes: Seq<Route>, n: int, w: u16, n_tiles: u16)
    requires
        1 <= n,
        spec_routes_writes(source, routes, n, w, n_tiles) is Some,
    ensures
        spec_routes_writes(source, routes, n - 1, w, n_tiles) is Some,
        spec_route_writes(source, routes[n - 1], w, n_tiles) is Some,
        spec_apply_writes(g, spec_routes_writes(source, routes, n, w, n_tiles)->0)
            == spec_apply_writes(spec_apply_writes(g, spec_routes_writes(source, routes, n - 1, w, n_tiles)->0),
                spec_route_writes(source, routes[n - 1], w, n_tiles)->0),
{
    lemma_apply_writes_append(g, spec_routes_writes(source, routes, n - 1, w, n_tiles)->0,
        spec_route_writes(source, routes[n - 1], w, n_tiles)->0);
}

/// The bits that connecting a pad programs, edge by edge, for a track `nr`
/// that the channel has, in the tile of the track. A source pad drives the
/// input half of the connection block (`2w..4w`): the right and top edges
/// through the top-in section, the bottom and left edges through the
/// bottom-in section, where the tile's logic element also passes the signal
/// on (look-up table entry 2 for the bottom input, 4 for the left one). A
/// sink pad takes the output half (`0..2w`) in the same way, with entry 4 on
/// the bottom edge and entry 1 on the left. A point on no edge has no pad
/// connection.
pub proof fn law_pad_connection_bits(source: Source, sink: Sink, track: Track, cfg: Config)
    requires
        cfg.wf(),
        track.nr < cfg.channel_width,
    ensures
        ({
            let w = cfg.channel_width as int;
            let nr = track.nr as int;
            let n = cfg.fpga_width;
            let x = track.xy.0 as usize;
            let y = track.xy.1 as usize;
            let src = spec_source_from_pad(source, track, cfg.channel_width, n);
            let snk = spec_sink_to_pad(sink, track, cfg.channel_width, n);
            &&& spec_edges(source.0, n).len() == 0 ==> src is None
            &&& spec_edges(source.0, n).len() > 0 ==> src == Some(match spec_edges(source.0, n)[0] {
                Side::Right => seq![BitWrite { x, y, field: TileField::ConBlkRight, index: (3 * w + nr) as usize }],
                Side::Top => seq![BitWrite { x, y, field: TileField::ConBlkTop, index: (3 * w + nr) as usize }],
                Side::Bottom => seq![BitWrite { x, y, field: TileField::ConBlkTop, index: (2 * w + nr) as usize },
                    BitWrite { x, y, field: TileField::Ble, index: 2 }],
                Side::Left => seq![BitWrite { x, y, field: TileField::ConBlkRight, index: (2 * w + nr) as usize },
                    BitWrite { x, y, field: TileField::Ble, index: 4 }],
            })
            &&& spec_edges(sink.0, n).len() == 0 ==> snk is None
            &&& spec_edges(sink.0, n).len() > 0 ==> snk == Some(match spec_edges(sink.0, n)[0] {
                Side::Right => seq![BitWrite { x, y, field: TileField::ConBlkRight, index: (w + nr) as usize }],
                Side::Top => seq![BitWrite { x, y, field: TileField::ConBlkTop, index: (w + nr) as usize }],
                Side::Bottom => seq![BitWrite { x, y, field: TileField::ConBlkTop, index: nr as usize },
                    BitWrite { x, y, field: TileField::Ble, index: 4 }],
                Side::Left => seq![BitWrite { x, y, field: TileField::ConBlkRight, index: nr as usize },
                    BitWrite { x, y, field: TileField::Ble, index: 1 }],
            })
        }),
{
    let w = cfg.channel_width as int;
    let n = cfg.fpga_width;
    if spec_edges(source.0, n).len() > 0 {
        let src = spec_source_from_pad(source, track, cfg.channel_width, n)->0;
        assert(src =~= match spec_edges(source.0, n)[0] {
            Side::Right => seq![BitWrite { x: track.xy.0 as usize, y: track.xy.1 as usize, field: TileField::ConBlkRight, index: (3 * w + track.nr) as usize }],
            Side::Top => seq![BitWrite { x: track.xy.0 as usize, y: track.xy.1 as usize, field: TileField::ConBlkTop, index: (3 * w + track.nr) as usize }],
            Side::Bottom => seq![BitWrite { x: track.xy.0 as usize, y: track.xy.1 as usize, field: TileField::ConBlkTop, index: (2 * w + track.nr) as usize },
                BitWrite { x: track.xy.0 as usize, y: track.xy.1 as usize, field: TileField::Ble, index: 2 }],
            Side::Left => seq![BitWrite { x: track.xy.0 as usize, y: track.xy.1 as usize, field: TileField::ConBlkRight, index: (2 * w + track.nr) as usize },
                BitWrite { x: track.xy.0 as usize, y: track.xy.1 as usize, field: TileField::Ble, index: 4 }],
        });
    }
    if spec_edges(sink.0, n).len() > 0 {
        let snk = spec_sink_to_pad(sink, track, cfg.channel_width, n)->0;
        assert(snk =~= match spec_edges(sink.0, n)[0] {
            Side::Right => seq![BitWrite { x: track.xy.0 as usize, y: track.xy.1 as usize, field: TileField::ConBlkRight, index: (w + track.nr) as usize }],
            Side::Top => seq![BitWrite { x: track.xy.0 as usize, y: track.xy.1 as usize, field: TileField::ConBlkTop, index: (w + track.nr) as usize }],
            Side::Bottom => seq![BitWrite { x: track.xy.0 as usize, y: track.xy.1 as usize, field: TileField::ConBlkTop, index: track.nr as usize },
                BitWrite { x: track.xy.0 as usize, y: track.xy.1 as usize, field: TileField::Ble, index: 4 }],
            Side::Left => seq![BitWrite { x: track.xy.0 as usize, y: track.xy.1 as usize, field: TileField::ConBlkRight, index: track.nr as usize },
                BitWrite { x: track.xy.0 as usize, y: track.xy.1 as usize, field: TileField::Ble, index: 1 }],
        });
    }
}

/// The bit that connecting a logic element programs, in the tile of the
/// track, for a track `nr` that the channel has. A horizontal track uses the
/// top connection block, numbered from top to bottom (`w - 1 - nr`); a
/// vertical one the right block, numbered as the routing does (`nr`). A
/// source uses the bottom-in section (`2w..3w`) when the track lies in its
/// row or column and the top-in section (`3w..4w`) otherwise; a sink the
/// bottom-out (`0..w`) and top-out (`w..2w`) sections in the same way.
pub proof fn law_ble_connection_bits(source: Source, sink: Sink, track: Track, cfg: Config)
    requires
        cfg.wf(),
        track.nr < cfg.channel_width,
    ensures
        ({
            let w = cfg.channel_width as int;
            let x = track.xy.0 as usize;
            let y = track.xy.1 as usize;
            let horizontal = track.orientation == XY::X;
            let pos = if horizontal { w - 1 - track.nr } else { track.nr as int };
            let field = if horizontal { TileField::ConBlkTop } else { TileField::ConBlkRight };
            let src_near = if horizontal { track.xy.1 == source.0.1 } else { track.xy.0 == source.0.0 };
            let snk_near = if horizontal { track.xy.1 == sink.0.1 } else { track.xy.0 == sink.0.0 };
            &&& spec_source_from_ble(source, track, cfg.channel_width)
                == Some(seq![BitWrite { x, y, field, index: ((if src_near { 2 * w } else { 3 * w }) + pos) as usize }])
            &&& spec_sink_to_ble(sink, track, cfg.channel_width)
                == Some(seq![BitWrite { x, y, field, index: ((if snk_near { 0 } else { w }) + pos) as usize }])
        }),
{
}

} // verus!
