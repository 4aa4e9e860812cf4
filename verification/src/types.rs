use vstd::prelude::*;

verus! {

/// Number of a track, pin, pad or class in the routing graph.
pub type MetaNumber = u16;
pub type ClassOrPad = MetaNumber;
pub type PinOrPad = MetaNumber;

/// A port of a logic block.
#[derive(Clone, Copy, Debug, PartialEq, Eq, Structural)]
pub struct Port(pub u32);

/// A location on the VPR grid: `Point(x, y)`.
#[derive(Clone, Copy, Debug, PartialEq, Eq, Structural, Hash)]
pub struct Point(pub u32, pub u32);

/// The orientation of a routing channel.
#[derive(Clone, Copy, Debug, PartialEq, Eq, Structural)]
pub enum XY {
    X,
    Y,
}

/// The kind of a node of the routing resource graph.
#[derive(Clone, Copy, Debug, PartialEq, Eq, Structural)]
pub enum NodeType {
    Source,
    Sink,
    IPin,
    OPin,
    Chan(XY),
    Block,
}

/// What the number that ends a node line counts: a pin, a pad, a class or a track.
#[derive(Clone, Copy, Debug, PartialEq, Eq, Structural)]
pub enum NodeMetaType {
    Pin,
    Pad,
    Class,
    Track,
}

/// The start of a routed net: its location, whether it leaves a logic block
/// pin or a pad, its class (or pad) number and its pin (or pad) number.
#[derive(Clone, Copy, Debug, PartialEq, Eq, Structural)]
pub struct Source(pub Point, pub NodeMetaType, pub ClassOrPad, pub PinOrPad);

/// The end of one branch of a routed net.
#[derive(Clone, Copy, Debug, PartialEq, Eq, Structural)]
pub struct Sink(pub Point, pub NodeMetaType, pub ClassOrPad, pub PinOrPad);

/// One routing track used by a net.
#[derive(Clone, Copy, Debug, PartialEq, Eq, Structural)]
pub struct Track {
    pub id: u32,
    pub nr: MetaNumber,
    pub xy: Point,
    pub orientation: XY,
}

/// One branch of a routed net: the tracks it takes, the sink it ends in, and
/// whether it starts at the net's output pin (otherwise it starts at a track
/// of an earlier branch).
#[derive(Debug)]
pub struct Route {
    pub tracks: Vec<Track>,
    pub sink: Option<Sink>,
    pub from_opin: bool,
}

/// All branches of a routed net.
pub type RouteTree = Vec<Route>;

/// A routed net.
#[derive(Debug)]
pub enum Net {
    Global(NetGlobal),
    Local(NetLocal),
}

/// A net routed through the channels: its name, its source and its branches.
#[derive(Debug)]
pub struct NetLocal {
    pub name: String,
    pub src: Source,
    pub route_tree: RouteTree,
}

/// The nets that the bitstream generator and the timing analysis work on.
pub type RouteNet = NetLocal;

/// A global net (clocks and the like); it is not routed through the channels.
#[derive(Debug)]
pub struct NetGlobal;

/// One line of a `.route` file.
#[derive(Clone, Copy, Debug, PartialEq, Eq, Structural)]
pub struct Node {
    pub node_nr: u32,
    pub node_type: NodeType,
    pub xy: Point,
    pub meta_type: NodeMetaType,
    pub meta_nr: u16,
}

/// A look-up table of a model (a `.names` block).
///
/// `truth_table[i]` is the output for the inputs whose bits, read as a binary
/// number with the first input as the most significant bit, equal `i`;
/// `truth_idxs` lists the indices at which the table holds `true`.
#[derive(Debug)]
pub struct LogicBlock {
    pub inputs: Vec<String>,
    pub output: String,
    pub truth_table: Vec<bool>,
    pub truth_idxs: Vec<usize>,
}

/// A model of a `.blif` file.
#[derive(Debug)]
pub struct Model {
    pub name: String,
    pub inputs: Vec<String>,
    pub outputs: Vec<String>,
    pub latched: Vec<String>,
    pub logic: Vec<LogicBlock>,
}

/// A placed block: a basic logic element or a pad.
#[derive(Debug)]
pub struct Block {
    pub id: u32,
    pub name: String,
    pub xy: Point,
    pub sub_blk: u8,
    pub input: Vec<Port>,
    pub output: Port,
    pub truth_table: Vec<bool>,
}

/// A side of the FPGA or of a tile.
#[derive(Clone, Copy, Debug, PartialEq, Eq, Structural)]
pub enum Side {
    Right,
    Bottom,
    Left,
    Top,
}

/// A section of a connection block, named by the side and the direction of
/// the connection.
#[derive(Clone, Copy, Debug, PartialEq, Eq, Structural)]
pub enum PortFlow {
    RightIn,
    RightOut,
    BotIn,
    BotOut,
    LeftIn,
    LeftOut,
    TopIn,
    TopOut,
}

/// Direction of a connection.
#[derive(Clone, Copy, Debug, PartialEq, Eq, Structural)]
pub enum FlowDir {
    In,
    Out,
}

/// The sides of the FPGA on which a point lies, in the order right, top,
/// bottom, left: `n_tiles` is the coordinate of the right and of the top pads.
pub open spec fn spec_edges(p: Point, n_tiles: u16) -> Seq<Side> {
    let r = if p.0 == n_tiles { seq![Side::Right] } else { Seq::empty() };
    let t = if p.1 == n_tiles { seq![Side::Top] } else { Seq::empty() };
    let b = if p.1 == 0 { seq![Side::Bottom] } else { Seq::empty() };
    let l = if p.0 == 0 { seq![Side::Left] } else { Seq::empty() };
    r + t + b + l
}

impl Block {
    /// Meant to exchange two input ports of the block; it takes the block by
    /// shared reference and changes nothing.
    pub fn switch(&self, a: Port, b: Port) {
    }

    /// The sides of the FPGA on which `p` lies (see `spec_edges`).
    pub fn try_get_edges(p: &Point, n_tiles: u16) -> (r: Vec<Side>)
        ensures r@ == spec_edges(*p, n_tiles),
    {
        let mut r: Vec<Side> = Vec::new();
        if p.0 as u64 == n_tiles as u64 {
            r.push(Side::Right);
        }
        if p.1 as u64 == n_tiles as u64 {
            r.push(Side::Top);
        }
        if p.1 == 0 {
            r.push(Side::Bottom);
        }
        if p.0 == 0 {
            r.push(Side::Left);
        }
        proof {
            let p = *p;
            let rr = if p.0 == n_tiles { seq![Side::Right] } else { Seq::empty() };
            let t = if p.1 == n_tiles { seq![Side::Top] } else { Seq::empty() };
            let b = if p.1 == 0 { seq![Side::Bottom] } else { Seq::empty() };
            let l = if p.0 == 0 { seq![Side::Left] } else { Seq::empty() };
            assert(r@ =~= rr + t + b + l);
        }
        r
    }
}

/// The placement of the design: which block name stands at which point.
///
/// Later entries win over earlier ones, as when the entries are inserted
/// into a map in order.
#[derive(Debug)]
pub struct Placement {
    pub entries: Vec<(String, Point)>,
}

/// The point of the last entry named `name`.
pub open spec fn spec_point_of(entries: Seq<(String, Point)>, name: Seq<char>) -> Option<Point>
    decreases entries.len(),
{
    if entries.len() == 0 {
        None
    } else if entries.last().0@ == name {
        Some(entries.last().1)
    } else {
        spec_point_of(entries.drop_last(), name)
    }
}

/// The name of the last entry placed at `p`.
pub open spec fn spec_name_at(entries: Seq<(String, Point)>, p: Point) -> Option<Seq<char>>
    decreases entries.len(),
{
    if entries.len() == 0 {
        None
    } else if entries.last().1 == p {
        Some(entries.last().0@)
    } else {
        spec_name_at(entries.drop_last(), p)
    }
}

impl Placement {
    /// The point at which the block `name` is placed.
    pub fn get(&self, name: &String) -> (r: Option<Point>)
        ensures r == spec_point_of(self.entries@, name@),
    {
        let mut i = self.entries.len();
        assert(self.entries@.subrange(0, i as int) =~= self.entries@);
        while i > 0
            invariant
                i <= self.entries@.len(),
                spec_point_of(self.entries@, name@) == spec_point_of(self.entries@.subrange(0, i as int), name@),
            decreases i,
        {
            let ghost pre = self.entries@.subrange(0, i as int);
            assert(pre.drop_last() =~= self.entries@.subrange(0, i - 1));
            if self.entries[i - 1].0 == *name {
                return Some(self.entries[i - 1].1);
            }
            i = i - 1;
        }
        None
    }

    /// The name of the block placed at `p`.
    pub fn get_name(&self, p: &Point) -> (r: Option<&String>)
        ensures
            match r {
                Some(s) => spec_name_at(self.entries@, *p) == Some(s@),
                None => spec_name_at(self.entries@, *p) is None,
            },
    {
        let mut i = self.entries.len();
        assert(self.entries@.subrange(0, i as int) =~= self.entries@);
        while i > 0
            invariant
                i <= self.entries@.len(),
                spec_name_at(self.entries@, *p) == spec_name_at(self.entries@.subrange(0, i as int), *p),
            decreases i,
        {
            let ghost pre = self.entries@.subrange(0, i as int);
            assert(pre.drop_last() =~= self.entries@.subrange(0, i - 1));
            if self.entries[i - 1].1 == *p {
                return Some(&self.entries[i - 1].0);
            }
            i = i - 1;
        }
        None
    }
}

} // verus!
