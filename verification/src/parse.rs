//! Readers for the `.route` and `.place` files that VPR writes.
//!
//! Each reader takes the text of a file and gives back its content, an
//! error, or `Parsed::Aborted` for the inputs that the tool does not handle
//! at all (a number too large for the field it is read into, a net whose
//! header cannot be read, a routing node in a place where none can stand).
use vstd::prelude::*;
use vstd::utf8::*;
use vstd::string::*;
use crate::text::{CharClass, in_class, is_in, run_end, lemma_run_end, skip_run, lit_at, matches_at, find_lit, lemma_find_lit, find, decimal, all_in, parse_u32, parse_u16, line_spans, spans_view, lemma_line_spans, lines, lemma_after_ascii, lemma_text_valid, cut_point, substr};
use crate::types::{Point, XY, NodeType, NodeMetaType, Source, Sink, Track, Route, RouteNet, Node, Placement};

verus! {

/// Why a file could not be read.
#[derive(Clone, Copy, Debug, PartialEq, Eq, Structural)]
pub enum ParseError {
    /// A number does not fit the integer type that it is read into.
    NumberTooLarge,
    /// A line that should describe a routing node does not.
    MalformedNode,
    /// A routing node of a kind that the tool does not know.
    UnsupportedNodeType,
    /// A routing node numbered by something other than a pin, a pad, a
    /// class or a track.
    UnsupportedMetaType,
    /// A routed net without its SOURCE node.
    MissingSource,
    /// A routed net without the pin of its source.
    MissingPin,
    /// A parameter that does not read as `name = value`.
    MalformedParameter,
    /// A parameter that the tool needs and that was not given.
    MissingParameter,
    /// An argument that is neither a parameter definition nor a parameter
    /// file.
    UnknownParameterSource,
    /// A look-up table without names, so without an output.
    MissingOutput,
}

/// The outcome of reading a text.
#[derive(Debug)]
pub enum Parsed<T> {
    /// The content of the text.
    Done(T),
    /// The text was rejected.
    Failed(ParseError),
    /// The text is outside what the tool reads: it has no result.
    Aborted,
}

/// `r` is the outcome `s` seen through `f`.
pub open spec fn agrees<T, V>(r: Parsed<T>, s: Parsed<V>, f: spec_fn(T) -> V) -> bool {
    match (r, s) {
        (Parsed::Done(x), Parsed::Done(y)) => f(x) == y,
        (Parsed::Failed(e), Parsed::Failed(g)) => e == g,
        (Parsed::Aborted, Parsed::Aborted) => true,
        _ => false,
    }
}

/// `r` is the outcome `s`, which is not `Aborted`, seen through `f`.
pub open spec fn result_agrees<T, V>(r: Result<T, ParseError>, s: Parsed<V>, f: spec_fn(T) -> V) -> bool {
    match (r, s) {
        (Ok(x), Parsed::Done(y)) => f(x) == y,
        (Err(e), Parsed::Failed(g)) => e == g,
        _ => false,
    }
}

pub open spec fn lit_node() -> Seq<u8> { seq![78u8, 111, 100, 101, 58] }
pub open spec fn lit_source() -> Seq<u8> { seq![83u8, 79, 85, 82, 67, 69] }
pub open spec fn lit_sink() -> Seq<u8> { seq![83u8, 73, 78, 75] }
pub open spec fn lit_chanx() -> Seq<u8> { seq![67u8, 72, 65, 78, 88] }
pub open spec fn lit_chany() -> Seq<u8> { seq![67u8, 72, 65, 78, 89] }
pub open spec fn lit_ipin() -> Seq<u8> { seq![73u8, 80, 73, 78] }
pub open spec fn lit_opin() -> Seq<u8> { seq![79u8, 80, 73, 78] }
pub open spec fn lit_pin() -> Seq<u8> { seq![80u8, 105, 110] }
pub open spec fn lit_pad() -> Seq<u8> { seq![80u8, 97, 100] }
pub open spec fn lit_class() -> Seq<u8> { seq![67u8, 108, 97, 115, 115] }
pub open spec fn lit_track() -> Seq<u8> { seq![84u8, 114, 97, 99, 107] }

/// Whether the bytes `s[a..b]` are exactly `pat`.
pub open spec fn token_is(s: Seq<u8>, a: int, b: int, pat: Seq<u8>) -> bool {
    b - a == pat.len() && lit_at(s, a, b, pat)
}

/// Whether the bytes `s[a..b]` are exactly `lit`.
pub fn token_eq(s: &[u8], a: usize, b: usize, lit: &[u8]) -> (r: bool)
    requires
        a <= b <= s@.len(),
    ensures
        r == token_is(s@, a as int, b as int, lit@),
{
    b - a == lit.len() && matches_at(s, a, b, lit)
}

/// The spans of the fields of a node line.
pub struct NodeSpans {
    pub nr: (int, int),
    pub ty: (int, int),
    pub x: (int, int),
    pub y: (int, int),
    pub meta: (int, int),
    pub meta_nr: (int, int),
}

/// A colon at `c` of the line ending at `b` that blanks and a digit follow.
pub open spec fn colon_ok(s: Seq<u8>, c: int, b: int) -> bool {
    let d = run_end(s, c + 1, b, CharClass::Blank);
    0 <= c < b && s[c] == 58 && d > c + 1 && d < b && in_class(CharClass::Digit, s[d])
}

/// The last colon in `lo..=hi` that blanks and a digit follow.
pub open spec fn last_colon(s: Seq<u8>, lo: int, hi: int, b: int) -> Option<int>
    decreases hi - lo + 1,
{
    if hi < lo {
        None
    } else if colon_ok(s, hi, b) {
        Some(hi)
    } else {
        last_colon(s, lo, hi - 1, b)
    }
}

/// What follows the `)` of the coordinates, from `t` on: blanks, the word
/// of the last number (everything up to the last colon that blanks and a
/// number follow; it takes the blanks before it but one when it would
/// otherwise be empty), the colon, blanks and the last number.
pub open spec fn node_tail(s: Seq<u8>, t: int, b: int) -> Option<((int, int), (int, int))> {
    let r = run_end(s, t, b, CharClass::Blank);
    if r > t {
        match last_colon(s, t + 2, b - 1, b) {
            Some(c) => {
                let ms = if r < c { r } else { c - 1 };
                let d = run_end(s, c + 1, b, CharClass::Blank);
                Some(((ms, c), (d, run_end(s, d, b, CharClass::Digit))))
            },
            None => None,
        }
    } else {
        None
    }
}

/// What follows a node kind that ends at `e`: blanks, `(x,y)` and the tail
/// (see `node_tail`); the spans of x, y, the word and the last number.
pub open spec fn node_suffix(s: Seq<u8>, e: int, b: int) -> Option<((int, int), (int, int), (int, int), (int, int))> {
    let q = run_end(s, e, b, CharClass::Blank);
    let xe = run_end(s, q + 1, b, CharClass::Digit);
    let ye = run_end(s, xe + 1, b, CharClass::Digit);
    if q > e && q < b && s[q] == 40 && xe > q + 1 && xe < b && s[xe] == 44 && ye > xe + 1 && ye < b && s[ye] == 41 {
        match node_tail(s, ye + 1, b) {
            Some(tl) => Some(((q + 1, xe), (xe + 1, ye), tl.0, tl.1)),
            None => None,
        }
    } else {
        None
    }
}

/// The last end of a node kind in `lo..=hi` that a suffix follows.
pub open spec fn last_suffix(s: Seq<u8>, lo: int, hi: int, b: int) -> Option<int>
    decreases hi - lo + 1,
{
    if hi < lo {
        None
    } else if node_suffix(s, hi, b) is Some {
        Some(hi)
    } else {
        last_suffix(s, lo, hi - 1, b)
    }
}

/// The fields of a node line whose `Node:` stands at `p`, the line ending
/// at `b`: `Node:`, blanks, the node number, blanks, the kind, blanks,
/// `(x,y)`, blanks, the word of the last number, `:`, blanks and the last
/// number. The kind runs to the last place that the rest can follow, and
/// takes the blanks before it but one when it would otherwise be empty.
pub open spec fn node_spans_at(s: Seq<u8>, p: int, b: int) -> Option<NodeSpans> {
    let i0 = p + 5;
    let e1 = run_end(s, i0, b, CharClass::Blank);
    let e2 = run_end(s, e1, b, CharClass::Digit);
    let e3 = run_end(s, e2, b, CharClass::Blank);
    if lit_at(s, p, b, lit_node()) && e1 > i0 && e2 > e1 && e3 > e2 {
        match last_suffix(s, e2 + 2, b - 1, b) {
            Some(e) => match node_suffix(s, e, b) {
                Some(f) => Some(NodeSpans {
                    nr: (e1, e2),
                    ty: (if e3 < e { e3 } else { e - 1 }, e),
                    x: f.0,
                    y: f.1,
                    meta: f.2,
                    meta_nr: f.3,
                }),
                None => None,
            },
            None => None,
        }
    } else {
        None
    }
}

/// The first node description in `s[p..b]`.
pub open spec fn find_node(s: Seq<u8>, p: int, b: int) -> Option<NodeSpans>
    decreases b - p,
{
    if p < 0 || p >= b {
        None
    } else {
        match node_spans_at(s, p, b) {
            Some(sp) => Some(sp),
            None => find_node(s, p + 1, b),
        }
    }
}

/// The kind of node that the bytes `s[t.0..t.1]` name.
pub open spec fn node_type_of(s: Seq<u8>, t: (int, int)) -> Option<NodeType> {
    if token_is(s, t.0, t.1, lit_source()) { Some(NodeType::Source) }
    else if token_is(s, t.0, t.1, lit_sink()) { Some(NodeType::Sink) }
    else if token_is(s, t.0, t.1, lit_chanx()) { Some(NodeType::Chan(XY::X)) }
    else if token_is(s, t.0, t.1, lit_chany()) { Some(NodeType::Chan(XY::Y)) }
    else if token_is(s, t.0, t.1, lit_ipin()) { Some(NodeType::IPin) }
    else if token_is(s, t.0, t.1, lit_opin()) { Some(NodeType::OPin) }
    else { None }
}

/// The letters that start the word of the last number.
pub open spec fn meta_word(s: Seq<u8>, t: (int, int)) -> (int, int) {
    (t.0, run_end(s, t.0, t.1, CharClass::Alpha))
}

/// What the last number of a node line counts, by the word `s[t.0..t.1]`.
pub open spec fn meta_type_of(s: Seq<u8>, t: (int, int)) -> Option<NodeMetaType> {
    if token_is(s, t.0, t.1, lit_pin()) { Some(NodeMetaType::Pin) }
    else if token_is(s, t.0, t.1, lit_pad()) { Some(NodeMetaType::Pad) }
    else if token_is(s, t.0, t.1, lit_class()) { Some(NodeMetaType::Class) }
    else if token_is(s, t.0, t.1, lit_track()) { Some(NodeMetaType::Track) }
    else { None }
}

/// The node described by the line `s[a..b]`.
///
/// A line without a node description is malformed; a node number or a
/// coordinate over `u32::MAX`, or a last number over `u16::MAX`, aborts;
/// then the kind must be a known one, and so must the letters that start
/// the word of the last number.
pub open spec fn spec_node(s: Seq<u8>, a: int, b: int) -> Parsed<Node> {
    match find_node(s, a, b) {
        None => Parsed::Failed(ParseError::MalformedNode),
        Some(sp) => {
            let nr = decimal(s, sp.nr.0, sp.nr.1);
            let x = decimal(s, sp.x.0, sp.x.1);
            let y = decimal(s, sp.y.0, sp.y.1);
            let m = decimal(s, sp.meta_nr.0, sp.meta_nr.1);
            if nr > u32::MAX || x > u32::MAX || y > u32::MAX || m > u16::MAX {
                Parsed::Aborted
            } else {
                match node_type_of(s, sp.ty) {
                    None => Parsed::Failed(ParseError::UnsupportedNodeType),
                    Some(t) => match meta_type_of(s, meta_word(s, sp.meta)) {
                        None => Parsed::Failed(ParseError::UnsupportedMetaType),
                        Some(mt) => Parsed::Done(Node {
                            node_nr: nr as u32,
                            node_type: t,
                            xy: Point(x as u32, y as u32),
                            meta_type: mt,
                            meta_nr: m as u16,
                        }),
                    },
                }
            }
        },
    }
}

proof fn lemma_node_spans(s: Seq<u8>, p: int, b: int)
    requires
        0 <= p,
        b <= s.len(),
        node_spans_at(s, p, b) is Some,
    ensures
        ({
            let sp = node_spans_at(s, p, b)->0;
            &&& p < sp.nr.0 < sp.nr.1 < sp.ty.0 < sp.ty.1 < sp.x.0 < sp.x.1 < sp.y.0 < sp.y.1
                < sp.meta.0 < sp.meta.1 < sp.meta_nr.0 < sp.meta_nr.1 <= b
            &&& all_in(s, sp.nr.0, sp.nr.1, CharClass::Digit)
            &&& all_in(s, sp.x.0, sp.x.1, CharClass::Digit)
            &&& all_in(s, sp.y.0, sp.y.1, CharClass::Digit)
            &&& all_in(s, sp.meta_nr.0, sp.meta_nr.1, CharClass::Digit)
        }),
{
    let i0 = p + 5;
    lemma_run_end(s, i0, b, CharClass::Blank);
    let e1 = run_end(s, i0, b, CharClass::Blank);
    lemma_run_end(s, e1, b, CharClass::Digit);
    let e2 = run_end(s, e1, b, CharClass::Digit);
    lemma_run_end(s, e2, b, CharClass::Blank);
    lemma_last_suffix(s, e2 + 2, b - 1, b);
    let e = last_suffix(s, e2 + 2, b - 1, b)->0;
    lemma_node_suffix(s, e, b);
}

proof fn lemma_last_colon(s: Seq<u8>, lo: int, hi: int, b: int)
    ensures
        match last_colon(s, lo, hi, b) {
            Some(c) => lo <= c <= hi && colon_ok(s, c, b),
            None => true,
        },
    decreases hi - lo + 1,
{
    if hi >= lo && !colon_ok(s, hi, b) {
        lemma_last_colon(s, lo, hi - 1, b);
    }
}

proof fn lemma_last_suffix(s: Seq<u8>, lo: int, hi: int, b: int)
    ensures
        match last_suffix(s, lo, hi, b) {
            Some(e) => lo <= e <= hi && node_suffix(s, e, b) is Some,
            None => true,
        },
    decreases hi - lo + 1,
{
    if hi >= lo && node_suffix(s, hi, b) is None {
        lemma_last_suffix(s, lo, hi - 1, b);
    }
}

proof fn lemma_node_suffix(s: Seq<u8>, e: int, b: int)
    requires
        0 <= e,
        b <= s.len(),
        node_suffix(s, e, b) is Some,
    ensures
        ({
            let f = node_suffix(s, e, b)->0;
            &&& e < f.0.0 < f.0.1 < f.1.0 < f.1.1 < f.2.0 < f.2.1 < f.3.0 < f.3.1 <= b
            &&& all_in(s, f.0.0, f.0.1, CharClass::Digit)
            &&& all_in(s, f.1.0, f.1.1, CharClass::Digit)
            &&& all_in(s, f.3.0, f.3.1, CharClass::Digit)
        }),
{
    lemma_run_end(s, e, b, CharClass::Blank);
    let q = run_end(s, e, b, CharClass::Blank);
    lemma_run_end(s, q + 1, b, CharClass::Digit);
    let xe = run_end(s, q + 1, b, CharClass::Digit);
    lemma_run_end(s, xe + 1, b, CharClass::Digit);
    let ye = run_end(s, xe + 1, b, CharClass::Digit);
    let t = ye + 1;
    lemma_run_end(s, t, b, CharClass::Blank);
    lemma_last_colon(s, t + 2, b - 1, b);
    let c = last_colon(s, t + 2, b - 1, b)->0;
    lemma_run_end(s, c + 1, b, CharClass::Blank);
    let d = run_end(s, c + 1, b, CharClass::Blank);
    lemma_run_end(s, d, b, CharClass::Digit);
}

/// The last colon in `lo..=hi` that a number follows (see `last_colon`).
fn last_colon_exec(s: &[u8], lo: usize, hi: usize, b: usize) -> (r: Option<usize>)
    requires
        b <= s@.len(),
        hi < b,
    ensures
        match r {
            Some(c) => last_colon(s@, lo as int, hi as int, b as int) == Some(c as int),
            None => last_colon(s@, lo as int, hi as int, b as int) is None,
        },
{
    let mut h = hi;
    loop
        invariant
            h <= hi < b <= s@.len(),
            last_colon(s@, lo as int, h as int, b as int) == last_colon(s@, lo as int, hi as int, b as int),
        decreases h,
    {
        if h < lo {
            return None;
        }
        if s[h] == 58 {
            let d = skip_run(s, h + 1, b, CharClass::Blank);
            if d > h + 1 && d < b && is_in(CharClass::Digit, s[d]) {
                return Some(h);
            }
        }
        if h == 0 {
            assert(last_colon(s@, lo as int, -1, b as int) is None);
            return None;
        }
        h = h - 1;
    }
}

/// The tail of a node line from `t` on (see `node_tail`).
fn node_tail_exec(s: &[u8], t: usize, b: usize) -> (r: Option<((usize, usize), (usize, usize))>)
    requires
        t <= b <= s@.len(),
    ensures
        match r {
            Some(v) => node_tail(s@, t as int, b as int) == Some(((v.0.0 as int, v.0.1 as int), (v.1.0 as int, v.1.1 as int))),
            None => node_tail(s@, t as int, b as int) is None,
        },
{
    let r = skip_run(s, t, b, CharClass::Blank);
    if r == t || b < 3 || t > b - 3 {
        if r > t {
            assert(last_colon(s@, t + 2, b - 1, b as int) is None);
        }
        return None;
    }
    match last_colon_exec(s, t + 2, b - 1, b) {
        Some(c) => {
            proof { lemma_last_colon(s@, t + 2, b - 1, b as int); }
            let ms = if r < c { r } else { c - 1 };
            let d = skip_run(s, c + 1, b, CharClass::Blank);
            let de = skip_run(s, d, b, CharClass::Digit);
            Some(((ms, c), (d, de)))
        },
        None => None,
    }
}

/// The suffix after a node kind that ends at `e` (see `node_suffix`).
fn node_suffix_exec(s: &[u8], e: usize, b: usize) -> (r: Option<((usize, usize), (usize, usize), (usize, usize), (usize, usize))>)
    requires
        e <= b <= s@.len(),
    ensures
        match r {
            Some(v) => node_suffix(s@, e as int, b as int) == Some(((v.0.0 as int, v.0.1 as int), (v.1.0 as int, v.1.1 as int),
                (v.2.0 as int, v.2.1 as int), (v.3.0 as int, v.3.1 as int))),
            None => node_suffix(s@, e as int, b as int) is None,
        },
{
    let q = skip_run(s, e, b, CharClass::Blank);
    if q == e || q >= b || s[q] != 40 {
        return None;
    }
    let xe = skip_run(s, q + 1, b, CharClass::Digit);
    if xe == q + 1 || xe >= b || s[xe] != 44 {
        return None;
    }
    let ye = skip_run(s, xe + 1, b, CharClass::Digit);
    if ye == xe + 1 || ye >= b || s[ye] != 41 {
        return None;
    }
    match node_tail_exec(s, ye + 1, b) {
        Some(tl) => Some(((q + 1, xe), (xe + 1, ye), tl.0, tl.1)),
        None => None,
    }
}

/// The fields of the node line at `p` (see `node_spans_at`), as exec spans.
fn node_spans_exec(s: &[u8], p: usize, b: usize) -> (r: Option<[(usize, usize); 6]>)
    requires
        b <= s@.len(),
    ensures
        match r {
            Some(v) => node_spans_at(s@, p as int, b as int) == Some(NodeSpans {
                nr: (v[0].0 as int, v[0].1 as int),
                ty: (v[1].0 as int, v[1].1 as int),
                x: (v[2].0 as int, v[2].1 as int),
                y: (v[3].0 as int, v[3].1 as int),
                meta: (v[4].0 as int, v[4].1 as int),
                meta_nr: (v[5].0 as int, v[5].1 as int),
            }),
            None => node_spans_at(s@, p as int, b as int) is None,
        },
{
    let lit: [u8; 5] = [78u8, 111, 100, 101, 58];
    assert(lit@ =~= lit_node());
    if !matches_at(s, p, b, &lit) {
        return None;
    }
    let i0 = p + 5;
    let e1 = skip_run(s, i0, b, CharClass::Blank);
    if e1 == i0 { return None; }
    let e2 = skip_run(s, e1, b, CharClass::Digit);
    if e2 == e1 { return None; }
    let e3 = skip_run(s, e2, b, CharClass::Blank);
    if e3 == e2 { return None; }
    // the kind ends at the last place that the rest can follow
    let mut e = b;
    loop
        invariant
            e2 < e3 <= b <= s@.len(),
            e <= b,
            lit_at(s@, p as int, b as int, lit_node()),
            e1 == run_end(s@, i0 as int, b as int, CharClass::Blank) && i0 == p + 5 && e1 > i0,
            e2 == run_end(s@, e1 as int, b as int, CharClass::Digit) && e2 > e1,
            e3 == run_end(s@, e2 as int, b as int, CharClass::Blank),
            last_suffix(s@, e2 + 2, e - 1, b as int) == last_suffix(s@, e2 + 2, b - 1, b as int),
        decreases e,
    {
        if e <= e2 || e - e2 < 3 {
            assert(last_suffix(s@, e2 + 2, e - 1, b as int) is None);
            return None;
        }
        let k = e - 1;
        match node_suffix_exec(s, k, b) {
            Some(f) => {
                assert(last_suffix(s@, e2 + 2, k as int, b as int) == Some(k as int));
                let ts = if e3 < k { e3 } else { k - 1 };
                return Some([(e1, e2), (ts, k), f.0, f.1, f.2, f.3]);
            },
            None => {},
        }
        e = k;
    }
}

/// Reads the node described by the line `s[a..b]` (see `spec_node`).
pub fn parse_node(s: &[u8], a: usize, b: usize) -> (r: Parsed<Node>)
    requires
        a <= b <= s@.len(),
    ensures
        agrees(r, spec_node(s@, a as int, b as int), |n: Node| n),
{
    let mut p = a;
    while p < b
        invariant
            a <= p <= b <= s@.len(),
            find_node(s@, p as int, b as int) == find_node(s@, a as int, b as int),
        decreases b - p,
    {
        match node_spans_exec(s, p, b) {
            Some(v) => {
                proof { lemma_node_spans(s@, p as int, b as int); }
                let nr = parse_u32(s, v[0].0, v[0].1);
                let x = parse_u32(s, v[2].0, v[2].1);
                let y = parse_u32(s, v[3].0, v[3].1);
                let m = parse_u16(s, v[5].0, v[5].1);
                if nr.is_none() || x.is_none() || y.is_none() || m.is_none() {
                    return Parsed::Aborted;
                }
                let node_type = if token_eq(s, v[1].0, v[1].1, &[83u8, 79, 85, 82, 67, 69]) {
                    NodeType::Source
                } else if token_eq(s, v[1].0, v[1].1, &[83u8, 73, 78, 75]) {
                    NodeType::Sink
                } else if token_eq(s, v[1].0, v[1].1, &[67u8, 72, 65, 78, 88]) {
                    NodeType::Chan(XY::X)
                } else if token_eq(s, v[1].0, v[1].1, &[67u8, 72, 65, 78, 89]) {
                    NodeType::Chan(XY::Y)
                } else if token_eq(s, v[1].0, v[1].1, &[73u8, 80, 73, 78]) {
                    NodeType::IPin
                } else if token_eq(s, v[1].0, v[1].1, &[79u8, 80, 73, 78]) {
                    NodeType::OPin
                } else {
                    return Parsed::Failed(ParseError::UnsupportedNodeType);
                };
                let w = skip_run(s, v[4].0, v[4].1, CharClass::Alpha);
                let meta_type = if token_eq(s, v[4].0, w, &[80u8, 105, 110]) {
                    NodeMetaType::Pin
                } else if token_eq(s, v[4].0, w, &[80u8, 97, 100]) {
                    NodeMetaType::Pad
                } else if token_eq(s, v[4].0, w, &[67u8, 108, 97, 115, 115]) {
                    NodeMetaType::Class
                } else if token_eq(s, v[4].0, w, &[84u8, 114, 97, 99, 107]) {
                    NodeMetaType::Track
                } else {
                    return Parsed::Failed(ParseError::UnsupportedMetaType);
                };
                return Parsed::Done(Node {
                    node_nr: nr.unwrap(),
                    node_type,
                    xy: Point(x.unwrap(), y.unwrap()),
                    meta_type,
                    meta_nr: m.unwrap(),
                });
            },
            None => {},
        }
        p = p + 1;
    }
    Parsed::Failed(ParseError::MalformedNode)
}

/// The abstract content of one branch of a routed net.
pub struct RouteView {
    pub tracks: Seq<Track>,
    pub sink: Option<Sink>,
    pub from_opin: bool,
}

/// The abstract content of a routed net.
pub struct NetView {
    pub name: Seq<char>,
    pub src: Source,
    pub routes: Seq<RouteView>,
}

pub open spec fn route_view(r: Route) -> RouteView {
    RouteView { tracks: r.tracks@, sink: r.sink, from_opin: r.from_opin }
}

pub open spec fn net_view(n: RouteNet) -> NetView {
    NetView { name: n.name@, src: n.src, routes: n.route_tree@.map_values(|r: Route| route_view(r)) }
}

/// What has been read of the branches of a net: the branches, whether the
/// next track starts a new branch, and whether that branch leaves the
/// source's output pin.
pub struct RouteState {
    pub routes: Seq<RouteView>,
    pub new_route: bool,
    pub opin: bool,
}

/// The state after a track: it starts a new branch when one is due, and
/// extends the last branch otherwise.
pub open spec fn add_track(st: RouteState, t: Track) -> RouteState {
    if st.new_route {
        RouteState {
            routes: st.routes.push(RouteView { tracks: seq![t], sink: None, from_opin: st.opin }),
            new_route: false,
            opin: false,
        }
    } else {
        let last = st.routes.len() - 1;
        RouteState {
            routes: st.routes.update(last, RouteView {
                tracks: st.routes[last].tracks.push(t),
                sink: st.routes[last].sink,
                from_opin: st.routes[last].from_opin,
            }),
            new_route: false,
            opin: st.opin,
        }
    }
}

/// The branches of a net read from its node lines `ls[k..]`, from state `st`.
///
/// A track (CHANX or CHANY) goes to the branch being read; an input pin,
/// with the SINK line after it, ends the last branch; an output pin makes
/// the next branch start at the source. A node of another kind, or a sink
/// before any branch, aborts.
pub open spec fn net_routes(s: Seq<u8>, ls: Seq<(int, int)>, k: int, st: RouteState) -> Parsed<Seq<RouteView>>
    decreases ls.len() - k,
{
    if k < 0 || k >= ls.len() {
        Parsed::Done(st.routes)
    } else {
        match spec_node(s, ls[k].0, ls[k].1) {
            Parsed::Failed(e) => Parsed::Failed(e),
            Parsed::Aborted => Parsed::Aborted,
            Parsed::Done(n) => match n.node_type {
                NodeType::IPin => {
                    let snk = if k + 1 < ls.len() { spec_node(s, ls[k + 1].0, ls[k + 1].1) } else { Parsed::Failed(ParseError::MalformedNode) };
                    match snk {
                        Parsed::Failed(e) => Parsed::Failed(e),
                        Parsed::Aborted => Parsed::Aborted,
                        Parsed::Done(sn) => {
                            if st.routes.len() == 0 {
                                Parsed::Aborted
                            } else {
                                let last = st.routes.len() - 1;
                                net_routes(s, ls, k + 2, RouteState {
                                    routes: st.routes.update(last, RouteView {
                                        tracks: st.routes[last].tracks,
                                        sink: Some(Sink(n.xy, n.meta_type, sn.meta_nr, n.meta_nr)),
                                        from_opin: st.routes[last].from_opin,
                                    }),
                                    new_route: true,
                                    opin: st.opin,
                                })
                            }
                        },
                    }
                },
                NodeType::Chan(o) => net_routes(s, ls, k + 1, add_track(st, Track { id: n.node_nr, nr: n.meta_nr, xy: n.xy, orientation: o })),
                NodeType::OPin => net_routes(s, ls, k + 1, RouteState { routes: st.routes, new_route: st.new_route, opin: true }),
                _ => Parsed::Aborted,
            },
        }
    }
}

/// The last position in `s[lo..hi]` that holds `c`.
pub open spec fn last_byte(s: Seq<u8>, lo: int, hi: int, c: u8) -> Option<int>
    decreases hi - lo,
{
    if hi <= lo || hi > s.len() || lo < 0 {
        None
    } else if s[hi - 1] == c {
        Some(hi - 1)
    } else {
        last_byte(s, lo, hi - 1, c)
    }
}

/// A net header at `i` in `s[..h]`: a number, blanks, `(`, and the name up
/// to the last `)` of the line, which holds at least one byte.
pub open spec fn net_header_at(s: Seq<u8>, i: int, h: int) -> Option<((int, int), (int, int))> {
    let e1 = run_end(s, i, h, CharClass::Digit);
    let e2 = run_end(s, e1, h, CharClass::Blank);
    if e1 > i && e2 > e1 && e2 < h && s[e2] == 40 {
        let le = match find_lit(s, e2 + 1, h, seq![10u8]) { Some(q) => q, None => h };
        match last_byte(s, e2 + 2, le, 41u8) {
            Some(c) => Some(((i, e1), (e2 + 1, c))),
            None => None,
        }
    } else {
        None
    }
}

/// The first net header in `s[i..h]`.
pub open spec fn find_net_header(s: Seq<u8>, i: int, h: int) -> Option<((int, int), (int, int))>
    decreases h - i,
{
    if i < 0 || i >= h {
        None
    } else {
        match net_header_at(s, i, h) {
            Some(r) => Some(r),
            None => find_net_header(s, i + 1, h),
        }
    }
}

pub open spec fn lit_blank_line() -> Seq<u8> { seq![10u8, 10] }

/// The net described by `s[lo..hi]`, the text between two `Net` words.
///
/// Its header runs to the first empty line, its node lines to the next one.
/// A net with nothing after its first empty line, or whose header does not
/// read, aborts; a
/// net number over `u32::MAX` is an error; the first two node lines are its
/// source and the pin the source leaves by, and the rest are its branches.
#[verifier::opaque]
pub open spec fn spec_net(s: Seq<u8>, lo: int, hi: int) -> Parsed<NetView> {
    match find_lit(s, lo, hi, lit_blank_line()) {
        None => Parsed::Aborted,
        Some(q1) => {
            let bl = q1 + 2;
            let bh = match find_lit(s, bl, hi, lit_blank_line()) { Some(q2) => q2, None => hi };
            match find_net_header(s, lo, q1) {
                None => Parsed::Aborted,
                Some(_) if bl >= hi => Parsed::Aborted,
                Some(hd) => {
                    if decimal(s, hd.0.0, hd.0.1) > u32::MAX {
                        Parsed::Failed(ParseError::NumberTooLarge)
                    } else {
                        let ls = line_spans(s, bl, bh);
                        if ls.len() < 1 {
                            Parsed::Failed(ParseError::MissingSource)
                        } else if ls.len() < 2 {
                            Parsed::Failed(ParseError::MissingPin)
                        } else {
                            match spec_node(s, ls[0].0, ls[0].1) {
                                Parsed::Failed(e) => Parsed::Failed(e),
                                Parsed::Aborted => Parsed::Aborted,
                                Parsed::Done(src) => match spec_node(s, ls[1].0, ls[1].1) {
                                    Parsed::Failed(e) => Parsed::Failed(e),
                                    Parsed::Aborted => Parsed::Aborted,
                                    Parsed::Done(pin) => match net_routes(s, ls, 2, RouteState { routes: seq![], new_route: true, opin: true }) {
                                        Parsed::Failed(e) => Parsed::Failed(e),
                                        Parsed::Aborted => Parsed::Aborted,
                                        Parsed::Done(routes) => Parsed::Done(NetView {
                                            name: decode_utf8(s.subrange(hd.1.0, hd.1.1)),
                                            src: Source(src.xy, pin.meta_type, src.meta_nr, pin.meta_nr),
                                            routes,
                                        }),
                                    },
                                },
                            }
                        }
                    }
                },
            }
        },
    }
}

pub proof fn lemma_last_byte(s: Seq<u8>, lo: int, hi: int, c: u8)
    ensures
        match last_byte(s, lo, hi, c) {
            Some(p) => lo <= p < hi && p < s.len() && s[p] == c,
            None => true,
        },
    decreases hi - lo,
{
    if hi <= lo || hi > s.len() || lo < 0 {
    } else if s[hi - 1] == c {
    } else {
        lemma_last_byte(s, lo, hi - 1, c);
    }
}

/// The last position in `s[lo..hi]` that holds `c` (see `last_byte`).
fn find_last_byte(s: &[u8], lo: usize, hi: usize, c: u8) -> (r: Option<usize>)
    requires
        lo <= hi <= s@.len(),
    ensures
        match r {
            Some(p) => last_byte(s@, lo as int, hi as int, c) == Some(p as int),
            None => last_byte(s@, lo as int, hi as int, c) is None,
        },
{
    let mut h = hi;
    while h > lo
        invariant
            lo <= h <= hi <= s@.len(),
            last_byte(s@, lo as int, h as int, c) == last_byte(s@, lo as int, hi as int, c),
        decreases h,
    {
        if s[h - 1] == c {
            return Some(h - 1);
        }
        h = h - 1;
    }
    None
}

/// The net header at `i` (see `net_header_at`).
fn net_header_exec(s: &[u8], i: usize, h: usize) -> (r: Option<((usize, usize), (usize, usize))>)
    requires
        i <= h <= s@.len(),
    ensures
        match r {
            Some(v) => net_header_at(s@, i as int, h as int) == Some(((v.0.0 as int, v.0.1 as int), (v.1.0 as int, v.1.1 as int))),
            None => net_header_at(s@, i as int, h as int) is None,
        },
{
    let e1 = skip_run(s, i, h, CharClass::Digit);
    let e2 = skip_run(s, e1, h, CharClass::Blank);
    if e1 > i && e2 > e1 && e2 < h && s[e2] == 40 {
        let nl: [u8; 1] = [10u8];
        assert(nl@ =~= seq![10u8]);
        proof { lemma_find_lit(s@, e2 + 1, h as int, seq![10u8]); }
        let le = match find(s, e2 + 1, h, &nl) { Some(q) => q, None => h };
        if le <= e2 + 1 {
            assert(last_byte(s@, e2 + 2, le as int, 41u8) is None);
            return None;
        }
        match find_last_byte(s, e2 + 2, le, 41u8) {
            Some(c) => Some(((i, e1), (e2 + 1, c))),
            None => None,
        }
    } else {
        None
    }
}

proof fn lemma_net_header(s: Seq<u8>, i: int, h: int)
    requires
        0 <= i <= h <= s.len(),
        net_header_at(s, i, h) is Some,
    ensures
        ({
            let r = net_header_at(s, i, h)->0;
            &&& i <= r.0.0 < r.0.1 < r.1.0 < r.1.1 < h
            &&& all_in(s, r.0.0, r.0.1, CharClass::Digit)
            &&& s[r.1.0 - 1] == 40
            &&& s[r.1.1] == 41
        }),
{
    lemma_run_end(s, i, h, CharClass::Digit);
    let e1 = run_end(s, i, h, CharClass::Digit);
    lemma_run_end(s, e1, h, CharClass::Blank);
    let e2 = run_end(s, e1, h, CharClass::Blank);
    lemma_find_lit(s, e2 + 1, h, seq![10u8]);
    let le = match find_lit(s, e2 + 1, h, seq![10u8]) { Some(q) => q, None => h };
    lemma_last_byte(s, e2 + 2, le, 41u8);
}

/// The content of a net header (see `find_net_header`).
fn find_net_header_exec(s: &[u8], i: usize, h: usize) -> (r: Option<((usize, usize), (usize, usize))>)
    requires
        i <= h <= s@.len(),
    ensures
        match r {
            Some(v) => find_net_header(s@, i as int, h as int) == Some(((v.0.0 as int, v.0.1 as int), (v.1.0 as int, v.1.1 as int))),
            None => find_net_header(s@, i as int, h as int) is None,
        },
{
    let mut p = i;
    while p < h
        invariant
            i <= p <= h <= s@.len(),
            find_net_header(s@, p as int, h as int) == find_net_header(s@, i as int, h as int),
        decreases h - p,
    {
        match net_header_exec(s, p, h) {
            Some(v) => { return Some(v); },
            None => {},
        }
        p = p + 1;
    }
    None
}

pub open spec fn routes_view(v: Seq<Route>) -> Seq<RouteView> {
    v.map_values(|r: Route| route_view(r))
}

/// Adds `t` to the last branch.
fn push_track(routes: &mut Vec<Route>, t: Track)
    requires
        old(routes)@.len() > 0,
    ensures
        ({
            let last = old(routes)@.len() - 1;
            let ov = routes_view(old(routes)@);
            routes_view(final(routes)@) == ov.update(last, RouteView {
                tracks: ov[last].tracks.push(t),
                sink: ov[last].sink,
                from_opin: ov[last].from_opin,
            })
        }),
{
    let i = routes.len() - 1;
    routes[i].tracks.push(t);
    proof {
        let ov = routes_view(old(routes)@);
        assert(routes_view(routes@) =~= ov.update(i as int, RouteView {
            tracks: ov[i as int].tracks.push(t),
            sink: ov[i as int].sink,
            from_opin: ov[i as int].from_opin,
        }));
    }
}

/// Ends the last branch in `snk`.
fn set_sink(routes: &mut Vec<Route>, snk: Sink)
    requires
        old(routes)@.len() > 0,
    ensures
        ({
            let last = old(routes)@.len() - 1;
            let ov = routes_view(old(routes)@);
            routes_view(final(routes)@) == ov.update(last, RouteView {
                tracks: ov[last].tracks,
                sink: Some(snk),
                from_opin: ov[last].from_opin,
            })
        }),
{
    let i = routes.len() - 1;
    routes[i].sink = Some(snk);
    proof {
        let ov = routes_view(old(routes)@);
        assert(routes_view(routes@) =~= ov.update(i as int, RouteView {
            tracks: ov[i as int].tracks,
            sink: Some(snk),
            from_opin: ov[i as int].from_opin,
        }));
    }
}

/// Reads the branches of a net from its node lines `ls[2..]` (see `net_routes`).
fn read_routes(s: &[u8], ls: &Vec<(usize, usize)>) -> (r: Parsed<Vec<Route>>)
    requires
        forall|k: int| 0 <= k < ls@.len() ==> (#[trigger] ls@[k]).0 <= ls@[k].1 <= s@.len(),
    ensures
        agrees(r, net_routes(s@, spans_view(ls@), 2, RouteState { routes: seq![], new_route: true, opin: true }),
            |v: Vec<Route>| routes_view(v@)),
{
    let ghost lv = spans_view(ls@);
    let mut routes: Vec<Route> = Vec::new();
    let mut new_route = true;
    let mut opin = true;
    let mut k: usize = 2;
    assert(routes_view(routes@) =~= seq![]);
    while k < ls.len()
        invariant
            2 <= k,
            lv == spans_view(ls@),
            forall|j: int| 0 <= j < ls@.len() ==> (#[trigger] ls@[j]).0 <= ls@[j].1 <= s@.len(),
            !new_route ==> routes@.len() > 0,
            net_routes(s@, lv, k as int, RouteState { routes: routes_view(routes@), new_route, opin })
                == net_routes(s@, lv, 2, RouteState { routes: seq![], new_route: true, opin: true }),
        decreases ls@.len() - k,
    {
        let ghost st = RouteState { routes: routes_view(routes@), new_route, opin };
        let (a, b) = ls[k];
        assert(lv[k as int] == (a as int, b as int));
        match parse_node(s, a, b) {
            Parsed::Failed(e) => { return Parsed::Failed(e); },
            Parsed::Aborted => { return Parsed::Aborted; },
            Parsed::Done(n) => {
                match n.node_type {
                    NodeType::IPin => {
                        if k + 1 >= ls.len() {
                            return Parsed::Failed(ParseError::MalformedNode);
                        }
                        let (a2, b2) = ls[k + 1];
                        assert(lv[k + 1] == (a2 as int, b2 as int));
                        match parse_node(s, a2, b2) {
                            Parsed::Failed(e) => { return Parsed::Failed(e); },
                            Parsed::Aborted => { return Parsed::Aborted; },
                            Parsed::Done(sn) => {
                                if routes.len() == 0 {
                                    return Parsed::Aborted;
                                }
                                set_sink(&mut routes, Sink(n.xy, n.meta_type, sn.meta_nr, n.meta_nr));
                                new_route = true;
                                k = k + 2;
                            },
                        }
                    },
                    NodeType::Chan(o) => {
                        let t = Track { id: n.node_nr, nr: n.meta_nr, xy: n.xy, orientation: o };
                        if new_route {
                            let mut tracks: Vec<Track> = Vec::new();
                            tracks.push(t);
                            routes.push(Route { tracks, sink: None, from_opin: opin });
                            proof {
                                assert(tracks@ =~= seq![t]);
                                assert(routes_view(routes@) =~= st.routes.push(RouteView { tracks: seq![t], sink: None, from_opin: opin }));
                            }
                            new_route = false;
                            opin = false;
                        } else {
                            push_track(&mut routes, t);
                        }
                        k = k + 1;
                    },
                    NodeType::OPin => {
                        opin = true;
                        k = k + 1;
                    },
                    _ => { return Parsed::Aborted; },
                }
            },
        }
    }
    Parsed::Done(routes)
}

/// Reads the net in `s[lo..hi]` of the text `text` (see `spec_net`).
fn parse_net(text: &str, s: &[u8], lo: usize, hi: usize) -> (r: Parsed<RouteNet>)
    requires
        s@ == text.spec_bytes(),
        lo <= hi <= s@.len(),
    ensures
        agrees(r, spec_net(s@, lo as int, hi as int), |n: RouteNet| net_view(n)),
{
    reveal(spec_net);
    let nn: [u8; 2] = [10u8, 10u8];
    assert(nn@ =~= lit_blank_line());
    proof { lemma_find_lit(s@, lo as int, hi as int, lit_blank_line()); }
    let q1 = match find(s, lo, hi, &nn) {
        None => { return Parsed::Aborted; },
        Some(q) => q,
    };
    let bl = q1 + 2;
    if bl >= hi {
        return Parsed::Aborted;
    }
    proof { lemma_find_lit(s@, bl as int, hi as int, lit_blank_line()); }
    let bh = match find(s, bl, hi, &nn) { Some(q) => q, None => hi };
    let hd = match find_net_header_exec(s, lo, q1) {
        None => { return Parsed::Aborted; },
        Some(v) => v,
    };
    proof { lemma_find_net_header(s@, lo as int, q1 as int); }
    if parse_u32(s, hd.0.0, hd.0.1).is_none() {
        return Parsed::Failed(ParseError::NumberTooLarge);
    }
    let ls = lines(s, bl, bh);
    proof { lemma_line_spans(s@, bl as int, bh as int); }
    if ls.len() < 1 {
        return Parsed::Failed(ParseError::MissingSource);
    }
    if ls.len() < 2 {
        return Parsed::Failed(ParseError::MissingPin);
    }
    let ghost lv = spans_view(ls@);
    assert(lv[0] == (ls@[0].0 as int, ls@[0].1 as int));
    assert(lv[1] == (ls@[1].0 as int, ls@[1].1 as int));
    let src = match parse_node(s, ls[0].0, ls[0].1) {
        Parsed::Failed(e) => { return Parsed::Failed(e); },
        Parsed::Aborted => { return Parsed::Aborted; },
        Parsed::Done(n) => n,
    };
    let pin = match parse_node(s, ls[1].0, ls[1].1) {
        Parsed::Failed(e) => { return Parsed::Failed(e); },
        Parsed::Aborted => { return Parsed::Aborted; },
        Parsed::Done(n) => n,
    };
    assert forall|k: int| 0 <= k < ls@.len() implies (#[trigger] ls@[k]).0 <= ls@[k].1 <= s@.len() by {
        assert(lv[k] == (ls@[k].0 as int, ls@[k].1 as int));
    }
    let routes = match read_routes(s, &ls) {
        Parsed::Failed(e) => { return Parsed::Failed(e); },
        Parsed::Aborted => { return Parsed::Aborted; },
        Parsed::Done(v) => v,
    };
    proof {
        lemma_text_valid(text);
        lemma_after_ascii(s@, hd.1.0 - 1);
    }
    let name = substr(text, hd.1.0, hd.1.1);
    Parsed::Done(RouteNet {
        name,
        src: Source(src.xy, pin.meta_type, src.meta_nr, pin.meta_nr),
        route_tree: routes,
    })
}

proof fn lemma_find_net_header(s: Seq<u8>, i: int, h: int)
    requires
        0 <= i <= h <= s.len(),
        find_net_header(s, i, h) is Some,
    ensures
        ({
            let r = find_net_header(s, i, h)->0;
            &&& i <= r.0.0 < r.0.1 < r.1.0 < r.1.1 < h
            &&& all_in(s, r.0.0, r.0.1, CharClass::Digit)
            &&& s[r.1.0 - 1] == 40
            &&& s[r.1.1] == 41
        }),
    decreases h - i,
{
    if net_header_at(s, i, h) is Some {
        lemma_net_header(s, i, h);
    } else {
        lemma_find_net_header(s, i + 1, h);
    }
}

pub open spec fn lit_net() -> Seq<u8> { seq![78u8, 101, 116] }
pub open spec fn lit_array_size() -> Seq<u8> { seq![65u8, 114, 114, 97, 121, 32, 115, 105, 122, 101, 58] }
pub open spec fn lit_x() -> Seq<u8> { seq![32u8, 120] }

/// `Array size: ` with its number, at `p` in the line ending at `b`, the
/// number followed by ` x`.
pub open spec fn route_size_at(s: Seq<u8>, p: int, b: int) -> Option<(int, int)> {
    let d0 = p + 12;
    let d1 = run_end(s, d0, b, CharClass::Digit);
    if lit_at(s, p, b, lit_array_size()) && p + 12 <= b && s[p + 11] == 32 && d1 > d0 && lit_at(s, d1, b, lit_x()) {
        Some((d0, d1))
    } else {
        None
    }
}

/// The first array size in `s[p..b]`.
pub open spec fn find_route_size(s: Seq<u8>, p: int, b: int) -> Option<(int, int)>
    decreases b - p,
{
    if p < 0 || p >= b {
        None
    } else {
        match route_size_at(s, p, b) {
            Some(r) => Some(r),
            None => find_route_size(s, p + 1, b),
        }
    }
}

/// The nets of a route file, the first of which starts at `from`: each runs
/// to the next `Net` word or to the end of the text; nothing after the last
/// `Net` word is no net.
pub open spec fn route_nets(s: Seq<u8>, from: int) -> Parsed<Seq<NetView>>
    decreases s.len() - from,
{
    if from < 0 || from >= s.len() {
        Parsed::Done(seq![])
    } else {
        let next = find_lit(s, from, s.len() as int, lit_net());
        let end = match next { Some(q) => q, None => s.len() as int };
        match spec_net(s, from, end) {
            Parsed::Failed(e) => Parsed::Failed(e),
            Parsed::Aborted => Parsed::Aborted,
            Parsed::Done(n) => match next {
                None => Parsed::Done(seq![n]),
                Some(q) => {
                    if q < from || q + 3 > s.len() {
                        Parsed::Done(seq![n])
                    } else {
                        match route_nets(s, q + 3) {
                            Parsed::Done(ns) => Parsed::Done(seq![n] + ns),
                            other => other,
                        }
                    }
                },
            },
        }
    }
}

/// The content of a route file: its array size and its nets.
///
/// The text up to the first `Net` word is the header; an empty header
/// aborts. The array size is the number in the first `Array size: N x` of
/// the header's first line (0 if there is none; over `u32::MAX` it is an
/// error). Each `Net` word starts a net (see `spec_net`); the first net
/// that fails or aborts decides the outcome.
pub open spec fn spec_route_file(s: Seq<u8>) -> Parsed<(u32, Seq<NetView>)> {
    let first = find_lit(s, 0, s.len() as int, lit_net());
    let he = match first { Some(q) => q, None => s.len() as int };
    if he <= 0 {
        Parsed::Aborted
    } else {
        let hl = line_spans(s, 0, he)[0];
        let size = match find_route_size(s, hl.0, hl.1) { Some(d) => decimal(s, d.0, d.1), None => 0 };
        if size > u32::MAX {
            Parsed::Failed(ParseError::NumberTooLarge)
        } else {
            match first {
                None => Parsed::Done((size as u32, seq![])),
                Some(q) => match route_nets(s, q + 3) {
                    Parsed::Done(ns) => Parsed::Done((size as u32, ns)),
                    Parsed::Failed(e) => Parsed::Failed(e),
                    Parsed::Aborted => Parsed::Aborted,
                },
            }
        }
    }
}

pub open spec fn nets_view(v: Seq<RouteNet>) -> Seq<NetView> {
    v.map_values(|n: RouteNet| net_view(n))
}

proof fn lemma_route_size(s: Seq<u8>, p: int, b: int)
    requires
        0 <= p <= b <= s.len(),
        find_route_size(s, p, b) is Some,
    ensures
        ({
            let d = find_route_size(s, p, b)->0;
            p <= d.0 < d.1 <= b && all_in(s, d.0, d.1, CharClass::Digit)
        }),
    decreases b - p,
{
    if route_size_at(s, p, b) is Some {
        lemma_run_end(s, p + 12, b, CharClass::Digit);
    } else {
        lemma_route_size(s, p + 1, b);
    }
}

/// The array size in the line `s[a..b]` (see `find_route_size`).
fn find_route_size_exec(s: &[u8], a: usize, b: usize) -> (r: Option<(usize, usize)>)
    requires
        a <= b <= s@.len(),
    ensures
        match r {
            Some(v) => find_route_size(s@, a as int, b as int) == Some((v.0 as int, v.1 as int)),
            None => find_route_size(s@, a as int, b as int) is None,
        },
{
    let lit: [u8; 11] = [65u8, 114, 114, 97, 121, 32, 115, 105, 122, 101, 58];
    let lx: [u8; 2] = [32u8, 120];
    assert(lit@ =~= lit_array_size());
    assert(lx@ =~= lit_x());
    let mut p = a;
    while p < b
        invariant
            a <= p <= b <= s@.len(),
            lit@ == lit_array_size(),
            lx@ == lit_x(),
            find_route_size(s@, p as int, b as int) == find_route_size(s@, a as int, b as int),
        decreases b - p,
    {
        if matches_at(s, p, b, &lit) && b - p >= 12 && s[p + 11] == 32 {
            let d0 = p + 12;
            let d1 = skip_run(s, d0, b, CharClass::Digit);
            if d1 > d0 && matches_at(s, d1, b, &lx) {
                return Some((d0, d1));
            }
        }
        p = p + 1;
    }
    None
}

/// The array size read from the first line of the header `s[..he]`.
pub open spec fn route_size_of(s: Seq<u8>, he: int) -> nat {
    let hl = line_spans(s, 0, he)[0];
    match find_route_size(s, hl.0, hl.1) { Some(d) => decimal(s, d.0, d.1), None => 0 }
}

/// The array size of a route file whose header is `s[..he]` (see
/// `route_size_of`), if it fits in a `u32`.
fn read_route_size(s: &[u8], he: usize) -> (r: Option<u32>)
    requires
        0 < he <= s@.len(),
    ensures
        r == (if route_size_of(s@, he as int) <= u32::MAX { Some(route_size_of(s@, he as int) as u32) } else { None }),
{
    let hls = lines(s, 0, he);
    proof { lemma_line_spans(s@, 0, he as int); }
    assert(spans_view(hls@)[0] == (hls@[0].0 as int, hls@[0].1 as int));
    match find_route_size_exec(s, hls[0].0, hls[0].1) {
        Some(d) => {
            proof { lemma_route_size(s@, hls@[0].0 as int, hls@[0].1 as int); }
            parse_u32(s, d.0, d.1)
        },
        None => Some(0),
    }
}

/// Reads the nets of a route file from `from` on (see `route_nets`).
fn read_nets(text: &str, s: &[u8], from: usize) -> (r: Parsed<Vec<RouteNet>>)
    requires
        s@ == text.spec_bytes(),
        from <= s@.len(),
    ensures
        agrees(r, route_nets(s@, from as int), |v: Vec<RouteNet>| nets_view(v@)),
{
    let n = s.len();
    let lit: [u8; 3] = [78u8, 101, 116];
    assert(lit@ =~= lit_net());
    let mut nets: Vec<RouteNet> = Vec::new();
    let mut cur = from;
    assert(nets_view(nets@) =~= seq![]);
    assert(forall|ns: Seq<NetView>| seq![] + ns =~= ns);
    loop
        invariant
            s@ == text.spec_bytes(),
            n == s@.len(),
            cur <= n,
            lit@ == lit_net(),
            route_nets(s@, from as int) == (match route_nets(s@, cur as int) {
                Parsed::Done(ns) => Parsed::Done(nets_view(nets@) + ns),
                Parsed::Failed(e) => Parsed::Failed(e),
                Parsed::Aborted => Parsed::Aborted,
            }),
        decreases n - cur,
    {
        let ghost nv = nets_view(nets@);
        if cur >= n {
            assert(nv + seq![] =~= nv);
            return Parsed::Done(nets);
        }
        proof { lemma_find_lit(s@, cur as int, n as int, lit_net()); }
        let next = find(s, cur, n, &lit);
        let end = match next { Some(q) => q, None => n };
        match parse_net(text, s, cur, end) {
            Parsed::Failed(e) => {
                assert(route_nets(s@, cur as int) == Parsed::<Seq<NetView>>::Failed(e));
                return Parsed::Failed(e);
            },
            Parsed::Aborted => {
                assert(route_nets(s@, cur as int) == Parsed::<Seq<NetView>>::Aborted);
                return Parsed::Aborted;
            },
            Parsed::Done(net) => {
                nets.push(net);
                proof { assert(nets_view(nets@) =~= nv.push(net_view(net))); }
                match next {
                    None => {
                        proof { assert(nv + seq![net_view(net)] =~= nets_view(nets@)); }
                        return Parsed::Done(nets);
                    },
                    Some(q) => {
                        proof {
                            assert forall|ns: Seq<NetView>| nv + (seq![net_view(net)] + ns) =~= nets_view(nets@) + ns by {}
                        }
                        cur = q + 3;
                    },
                }
            },
        }
    }
}

/// Reads a `.route` file (see `spec_route_file`); an input that the tool
/// does not handle gives `Parsed::Aborted`.
pub fn read_route_file(text: &str) -> (r: Parsed<(u32, Vec<RouteNet>)>)
    ensures
        agrees(r, spec_route_file(text.spec_bytes()), |v: (u32, Vec<RouteNet>)| (v.0, nets_view(v.1@))),
{
    let s = text.as_bytes();
    let n = s.len();
    let lit: [u8; 3] = [78u8, 101, 116];
    assert(lit@ =~= lit_net());
    proof { lemma_find_lit(s@, 0, n as int, lit_net()); }
    let first = find(s, 0, n, &lit);
    let he = match first { Some(q) => q, None => n };
    if he == 0 {
        return Parsed::Aborted;
    }
    let size = match read_route_size(s, he) {
        Some(v) => v,
        None => { return Parsed::Failed(ParseError::NumberTooLarge); },
    };
    match first {
        None => {
            let nets: Vec<RouteNet> = Vec::new();
            assert(nets_view(nets@) =~= seq![]);
            Parsed::Done((size, nets))
        },
        Some(q) => match read_nets(text, s, q + 3) {
            Parsed::Done(nets) => Parsed::Done((size, nets)),
            Parsed::Failed(e) => Parsed::Failed(e),
            Parsed::Aborted => Parsed::Aborted,
        },
    }
}

pub open spec fn lit_netlist() -> Seq<u8> { seq![78u8, 101, 116, 108, 105, 115, 116, 32, 102, 105, 108, 101, 58, 32] }
pub open spec fn lit_arch() -> Seq<u8> { seq![32u8, 65, 114, 99, 104, 105, 116, 101, 99, 116, 117, 114, 101, 32, 102, 105, 108, 101, 58, 32] }

/// The last position `p` in `lo..=hi` at which `pat` stands, ending at or
/// before `b`.
pub open spec fn last_lit(s: Seq<u8>, lo: int, hi: int, b: int, pat: Seq<u8>) -> Option<int>
    decreases hi - lo + 1,
{
    if hi < lo {
        None
    } else if lit_at(s, hi, b, pat) {
        Some(hi)
    } else {
        last_lit(s, lo, hi - 1, b, pat)
    }
}

/// The file names of the first line `s[a..b]` of a place file:
/// `Netlist file: N Architecture file: A`, where `N` and `A` are not
/// empty and `N` runs to the last ` Architecture file: ` that leaves `A`
/// a byte.
pub open spec fn place_files(s: Seq<u8>, a: int, b: int) -> Option<((int, int), (int, int))> {
    if lit_at(s, a, b, lit_netlist()) {
        match last_lit(s, a + 15, b - 21, b, lit_arch()) {
            Some(p) => Some(((a + 14, p), (p + 20, b))),
            None => None,
        }
    } else {
        None
    }
}

/// The array size of the second line `s[a..b]` of a place file:
/// `Array size:`, white space, the number, white space.
pub open spec fn place_size(s: Seq<u8>, a: int, b: int) -> Option<(int, int)> {
    let e1 = run_end(s, a + 11, b, CharClass::Space);
    let e2 = run_end(s, e1, b, CharClass::Digit);
    if lit_at(s, a, b, lit_array_size()) && e1 > a + 11 && e2 > e1 && e2 < b && in_class(CharClass::Space, s[e2]) {
        Some((e1, e2))
    } else {
        None
    }
}

/// A placement line `s[a..b]`: the block name (visible characters), then
/// x, y and the sub-block, each after white space, then white space, `#`
/// and the block number.
pub open spec fn place_entry(s: Seq<u8>, a: int, b: int) -> Option<((int, int), (int, int), (int, int))> {
    let e1 = run_end(s, a, b, CharClass::Graph);
    let e2 = run_end(s, e1, b, CharClass::Space);
    let e3 = run_end(s, e2, b, CharClass::Digit);
    let e4 = run_end(s, e3, b, CharClass::Space);
    let e5 = run_end(s, e4, b, CharClass::Digit);
    let e6 = run_end(s, e5, b, CharClass::Space);
    let e7 = run_end(s, e6, b, CharClass::Digit);
    let e8 = run_end(s, e7, b, CharClass::Space);
    let e9 = run_end(s, e8 + 1, b, CharClass::Digit);
    if e1 > a && e2 > e1 && e3 > e2 && e4 > e3 && e5 > e4 && e6 > e5 && e7 > e6 && e8 > e7
        && e8 < b && s[e8] == 35 && e9 > e8 + 1 {
        Some(((a, e1), (e2, e3), (e4, e5)))
    } else {
        None
    }
}

/// The placements of the lines `ls[k..]`: lines that are not placements
/// are passed over; a coordinate over `u32::MAX` aborts (`None`).
pub open spec fn place_entries(s: Seq<u8>, ls: Seq<(int, int)>, k: int) -> Option<Seq<(Seq<char>, Point)>>
    decreases ls.len() - k,
{
    if k < 0 || k >= ls.len() {
        Some(seq![])
    } else {
        match place_entry(s, ls[k].0, ls[k].1) {
            None => place_entries(s, ls, k + 1),
            Some(e) => {
                let x = decimal(s, e.1.0, e.1.1);
                let y = decimal(s, e.2.0, e.2.1);
                if x > u32::MAX || y > u32::MAX {
                    None
                } else {
                    match place_entries(s, ls, k + 1) {
                        None => None,
                        Some(rest) => Some(seq![(decode_utf8(s.subrange(e.0.0, e.0.1)), Point(x as u32, y as u32))] + rest),
                    }
                }
            },
        }
    }
}

/// The content of a place file: the array size, the netlist and
/// architecture file names and the placements, in the order of the file.
///
/// Line 0 gives the file names (empty when it does not read), line 1 the
/// array size (0 when it does not read; over `u32::MAX` it is an error),
/// line 2 is passed over and the placements follow (see `place_entries`).
pub open spec fn spec_place_file(s: Seq<u8>) -> Parsed<(u32, Seq<char>, Seq<char>, Seq<(Seq<char>, Point)>)> {
    let ls = line_spans(s, 0, s.len() as int);
    let files = if ls.len() > 0 { place_files(s, ls[0].0, ls[0].1) } else { None };
    let netlist = match files { Some(f) => decode_utf8(s.subrange(f.0.0, f.0.1)), None => seq![] };
    let arch = match files { Some(f) => decode_utf8(s.subrange(f.1.0, f.1.1)), None => seq![] };
    let size = if ls.len() > 1 {
        match place_size(s, ls[1].0, ls[1].1) { Some(d) => decimal(s, d.0, d.1), None => 0 }
    } else {
        0
    };
    if size > u32::MAX {
        Parsed::Failed(ParseError::NumberTooLarge)
    } else {
        match place_entries(s, ls, 3) {
            None => Parsed::Aborted,
            Some(es) => Parsed::Done((size as u32, netlist, arch, es)),
        }
    }
}

pub open spec fn entries_view(v: Seq<(String, Point)>) -> Seq<(Seq<char>, Point)> {
    v.map_values(|e: (String, Point)| (e.0@, e.1))
}

pub open spec fn place_file_view(v: (u32, String, String, Placement)) -> (u32, Seq<char>, Seq<char>, Seq<(Seq<char>, Point)>) {
    (v.0, v.1@, v.2@, entries_view(v.3.entries@))
}

proof fn lemma_last_lit(s: Seq<u8>, lo: int, hi: int, b: int, pat: Seq<u8>)
    ensures
        match last_lit(s, lo, hi, b, pat) {
            Some(p) => lo <= p <= hi && lit_at(s, p, b, pat),
            None => true,
        },
    decreases hi - lo + 1,
{
    if hi >= lo && !lit_at(s, hi, b, pat) {
        lemma_last_lit(s, lo, hi - 1, b, pat);
    }
}

/// The file names of the line `s[a..b]` (see `place_files`).
fn place_files_exec(s: &[u8], a: usize, b: usize) -> (r: Option<((usize, usize), (usize, usize))>)
    requires
        a <= b <= s@.len(),
    ensures
        match r {
            Some(v) => place_files(s@, a as int, b as int) == Some(((v.0.0 as int, v.0.1 as int), (v.1.0 as int, v.1.1 as int))),
            None => place_files(s@, a as int, b as int) is None,
        },
{
    let nl: [u8; 14] = [78u8, 101, 116, 108, 105, 115, 116, 32, 102, 105, 108, 101, 58, 32];
    let ar: [u8; 20] = [32u8, 65, 114, 99, 104, 105, 116, 101, 99, 116, 117, 114, 101, 32, 102, 105, 108, 101, 58, 32];
    assert(nl@ =~= lit_netlist());
    assert(ar@ =~= lit_arch());
    if !matches_at(s, a, b, &nl) {
        return None;
    }
    if b - a < 36 {
        assert(last_lit(s@, a + 15, b - 21, b as int, lit_arch()) is None);
        return None;
    }
    let mut p = b - 21;
    while p >= a + 15
        invariant
            a + 15 <= b - 21,
            p <= b - 21,
            b <= s@.len(),
            ar@ == lit_arch(),
            lit_at(s@, a as int, b as int, lit_netlist()),
            a + 14 <= p + 1,
            last_lit(s@, a + 15, p as int, b as int, lit_arch()) == last_lit(s@, a + 15, b - 21, b as int, lit_arch()),
        decreases p,
    {
        if matches_at(s, p, b, &ar) {
            assert(last_lit(s@, a + 15, p as int, b as int, lit_arch()) == Some(p as int));
            assert(lit_at(s@, a as int, b as int, lit_netlist()));
            return Some(((a + 14, p), (p + 20, b)));
        }
        p = p - 1;
    }
    None
}

/// The array size of the line `s[a..b]` (see `place_size`).
fn place_size_exec(s: &[u8], a: usize, b: usize) -> (r: Option<(usize, usize)>)
    requires
        a <= b <= s@.len(),
    ensures
        match r {
            Some(v) => place_size(s@, a as int, b as int) == Some((v.0 as int, v.1 as int))
                && v.0 < v.1 <= b && all_in(s@, v.0 as int, v.1 as int, CharClass::Digit),
            None => place_size(s@, a as int, b as int) is None,
        },
{
    let lit: [u8; 11] = [65u8, 114, 114, 97, 121, 32, 115, 105, 122, 101, 58];
    assert(lit@ =~= lit_array_size());
    if !matches_at(s, a, b, &lit) {
        return None;
    }
    let e1 = skip_run(s, a + 11, b, CharClass::Space);
    let e2 = skip_run(s, e1, b, CharClass::Digit);
    proof { lemma_run_end(s@, e1 as int, b as int, CharClass::Digit); }
    if e1 > a + 11 && e2 > e1 && e2 < b && is_in(CharClass::Space, s[e2]) {
        Some((e1, e2))
    } else {
        None
    }
}

/// The placement line `s[a..b]` (see `place_entry`).
fn place_entry_exec(s: &[u8], a: usize, b: usize) -> (r: Option<((usize, usize), (usize, usize), (usize, usize))>)
    requires
        a <= b <= s@.len(),
    ensures
        match r {
            Some(v) => place_entry(s@, a as int, b as int) == Some(((v.0.0 as int, v.0.1 as int), (v.1.0 as int, v.1.1 as int), (v.2.0 as int, v.2.1 as int)))
                && a <= v.0.0 < v.0.1 < v.1.0 < v.1.1 < v.2.0 < v.2.1 <= b
                && all_in(s@, v.0.0 as int, v.0.1 as int, CharClass::Graph)
                && all_in(s@, v.1.0 as int, v.1.1 as int, CharClass::Digit)
                && all_in(s@, v.2.0 as int, v.2.1 as int, CharClass::Digit)
                && in_class(CharClass::Space, s@[v.0.1 as int]),
            None => place_entry(s@, a as int, b as int) is None,
        },
{
    let e1 = skip_run(s, a, b, CharClass::Graph);
    let e2 = skip_run(s, e1, b, CharClass::Space);
    let e3 = skip_run(s, e2, b, CharClass::Digit);
    let e4 = skip_run(s, e3, b, CharClass::Space);
    let e5 = skip_run(s, e4, b, CharClass::Digit);
    let e6 = skip_run(s, e5, b, CharClass::Space);
    let e7 = skip_run(s, e6, b, CharClass::Digit);
    let e8 = skip_run(s, e7, b, CharClass::Space);
    if e1 > a && e2 > e1 && e3 > e2 && e4 > e3 && e5 > e4 && e6 > e5 && e7 > e6 && e8 > e7 && e8 < b && s[e8] == 35 {
        let e9 = skip_run(s, e8 + 1, b, CharClass::Digit);
        if e9 > e8 + 1 {
            proof {
                lemma_run_end(s@, a as int, b as int, CharClass::Graph);
                lemma_run_end(s@, e1 as int, b as int, CharClass::Space);
                lemma_run_end(s@, e2 as int, b as int, CharClass::Digit);
                lemma_run_end(s@, e4 as int, b as int, CharClass::Digit);
            }
            return Some(((a, e1), (e2, e3), (e4, e5)));
        }
    }
    None
}

/// Reads the placements of the lines `ls[3..]` (see `place_entries`).
fn read_placements(text: &str, s: &[u8], ls: &Vec<(usize, usize)>) -> (r: Option<Vec<(String, Point)>>)
    requires
        s@ == text.spec_bytes(),
        forall|k: int| 0 <= k < ls@.len() ==> {
            let sp = #[trigger] ls@[k];
            &&& sp.0 <= sp.1 <= s@.len()
            &&& (sp.1 == s@.len() || s@[sp.1 as int] == 10 || s@[sp.1 as int] == 13)
        },
    ensures
        match r {
            Some(v) => place_entries(s@, spans_view(ls@), 3) == Some(entries_view(v@)),
            None => place_entries(s@, spans_view(ls@), 3) is None,
        },
{
    let ghost lv = spans_view(ls@);
    let mut out: Vec<(String, Point)> = Vec::new();
    let mut k: usize = 3;
    proof { lemma_text_valid(text); }
    assert(entries_view(out@) =~= seq![]);
    assert(forall|es: Seq<(Seq<char>, Point)>| seq![] + es =~= es);
    while k < ls.len()
        invariant
            3 <= k,
            s@ == text.spec_bytes(),
            valid_utf8(s@),
            lv == spans_view(ls@),
            forall|j: int| 0 <= j < ls@.len() ==> {
                let sp = #[trigger] ls@[j];
                &&& sp.0 <= sp.1 <= s@.len()
                &&& (sp.1 == s@.len() || s@[sp.1 as int] == 10 || s@[sp.1 as int] == 13)
            },
            place_entries(s@, lv, 3) == (match place_entries(s@, lv, k as int) {
                Some(es) => Some(entries_view(out@) + es),
                None => None,
            }),
        decreases ls@.len() - k,
    {
        let (a, b) = ls[k];
        assert(lv[k as int] == (a as int, b as int));
        let ghost ov = entries_view(out@);
        match place_entry_exec(s, a, b) {
            None => {},
            Some(e) => {
                let x = parse_u32(s, e.1.0, e.1.1);
                let y = parse_u32(s, e.2.0, e.2.1);
                if x.is_none() || y.is_none() {
                    return None;
                }
                let name = substr(text, e.0.0, e.0.1);
                let pt = Point(x.unwrap(), y.unwrap());
                out.push((name, pt));
                proof {
                    assert(entries_view(out@) =~= ov.push((name@, pt)));
                    assert forall|es: Seq<(Seq<char>, Point)>| ov + (seq![(name@, pt)] + es) =~= entries_view(out@) + es by {}
                }
            },
        }
        k = k + 1;
    }
    proof {
        assert(entries_view(out@) + seq![] =~= entries_view(out@));
    }
    Some(out)
}

/// Reads a `.place` file (see `spec_place_file`); an input that the tool
/// does not handle gives `Parsed::Aborted`.
pub fn read_place_file(text: &str) -> (r: Parsed<(u32, String, String, Placement)>)
    ensures
        agrees(r, spec_place_file(text.spec_bytes()), |v: (u32, String, String, Placement)| place_file_view(v)),
{
    let s = text.as_bytes();
    let n = s.len();
    let ls = lines(s, 0, n);
    proof {
        lemma_line_spans(s@, 0, n as int);
        lemma_text_valid(text);
    }
    let ghost lv = spans_view(ls@);
    assert forall|k: int| 0 <= k < ls@.len() implies {
        let sp = #[trigger] ls@[k];
        &&& sp.0 <= sp.1 <= s@.len()
        &&& (sp.1 == s@.len() || s@[sp.1 as int] == 10 || s@[sp.1 as int] == 13)
    } by {
        assert(lv[k] == (ls@[k].0 as int, ls@[k].1 as int));
    }
    let mut netlist = String::new();
    let mut arch = String::new();
    if ls.len() > 0 {
        assert(lv[0] == (ls@[0].0 as int, ls@[0].1 as int));
        match place_files_exec(s, ls[0].0, ls[0].1) {
            Some(f) => {
                proof {
                    lemma_last_lit(s@, ls@[0].0 + 15, ls@[0].1 - 21, ls@[0].1 as int, lit_arch());
                    assert(s@[f.0.0 - 1] == s@.subrange(ls@[0].0 as int, ls@[0].0 + 14)[13]);
                    lemma_after_ascii(s@, f.0.0 - 1);
                    assert(s@[f.0.1 as int] == s@.subrange(f.0.1 as int, f.0.1 + 20)[0]);
                    assert(s@[f.1.0 - 1] == s@.subrange(f.0.1 as int, f.0.1 + 20)[19]);
                    lemma_after_ascii(s@, f.1.0 - 1);
                }
                netlist = substr(text, f.0.0, f.0.1);
                arch = substr(text, f.1.0, f.1.1);
            },
            None => {},
        }
    }
    let mut size: u32 = 0;
    if ls.len() > 1 {
        assert(lv[1] == (ls@[1].0 as int, ls@[1].1 as int));
        match place_size_exec(s, ls[1].0, ls[1].1) {
            Some(d) => {
                match parse_u32(s, d.0, d.1) {
                    Some(v) => { size = v; },
                    None => { return Parsed::Failed(ParseError::NumberTooLarge); },
                }
            },
            None => {},
        }
    }
    match read_placements(text, s, &ls) {
        None => Parsed::Aborted,
        Some(entries) => Parsed::Done((size, netlist, arch, Placement { entries })),
    }
}

/// Reads a `.route` file: its array size and its nets (see `spec_route_file`).
pub fn parse_route_file(text: &str) -> (r: Result<(u32, Vec<RouteNet>), ParseError>)
    requires
        !(spec_route_file(text.spec_bytes()) is Aborted),
    ensures
        result_agrees(r, spec_route_file(text.spec_bytes()), |v: (u32, Vec<RouteNet>)| (v.0, nets_view(v.1@))),
{
    match read_route_file(text) {
        Parsed::Done(v) => Ok(v),
        Parsed::Failed(e) => Err(e),
        Parsed::Aborted => Err(ParseError::MalformedNode),
    }
}

/// Reads a `.place` file: the array size, the netlist and architecture
/// file names and the placements (see `spec_place_file`).
pub fn parse_place_file(text: &str) -> (r: Result<(u32, String, String, Placement), ParseError>)
    requires
        !(spec_place_file(text.spec_bytes()) is Aborted),
    ensures
        result_agrees(r, spec_place_file(text.spec_bytes()), |v: (u32, String, String, Placement)| place_file_view(v)),
{
    match read_place_file(text) {
        Parsed::Done(v) => Ok(v),
        Parsed::Failed(e) => Err(e),
        Parsed::Aborted => Err(ParseError::NumberTooLarge),
    }
}

} // verus!
