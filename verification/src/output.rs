//! The texts that the tools write: the bitstream, the delay parameters and
//! the dual-rail `.blif` netlist.
use vstd::prelude::*;
use vstd::string::*;
use crate::tile::{Tile, TileView, spec_tile_bits};
use crate::types::{LogicBlock, Model};
use crate::model::LogicBlockView;
use crate::blif::{ModelView, model_view, strings_view};

verus! {

pub open spec fn bit_char(b: bool) -> char {
    if b { '1' } else { '0' }
}

/// The text of a tile's bits: last bit first, `1` for set and `0` for clear.
pub open spec fn tile_text(t: TileView) -> Seq<char> {
    spec_tile_bits(t).reverse().map_values(|b: bool| bit_char(b))
}

/// Row `i` of the bitstream: the tiles `(j, n - 1 - i)` for `j < m`.
pub open spec fn row_text(g: Seq<Seq<TileView>>, n: int, i: int, m: int) -> Seq<char>
    decreases m,
{
    if m <= 0 {
        seq![]
    } else {
        row_text(g, n, i, m - 1) + tile_text(g[m - 1][n - 1 - i])
    }
}

/// The first `m` rows of the bitstream of a grid with `len` columns.
pub open spec fn rows_text(g: Seq<Seq<TileView>>, n: int, m: int, len: int) -> Seq<char>
    decreases m,
{
    if m <= 0 {
        seq![]
    } else {
        rows_text(g, n, m - 1, len) + row_text(g, n, m - 1, len)
    }
}

pub open spec fn grid_view(tiles: Seq<Vec<Tile>>) -> Seq<Seq<TileView>> {
    tiles.map_values(|row: Vec<Tile>| row.deep_view())
}

/// The text of one bit.
fn bit_str(b: bool) -> (r: &'static str)
    ensures
        r@ == seq![bit_char(b)],
{
    if b {
        proof { reveal_strlit("1"); }
        "1"
    } else {
        proof { reveal_strlit("0"); }
        "0"
    }
}

/// Appends the text of a tile's bits (see `tile_text`) to `out`.
fn push_tile_text(out: &mut String, t: &Tile)
    ensures
        final(out)@ == old(out)@ + tile_text(t.deep_view()),
{
    let bits = t.bitstream();
    let ghost bv = bits@;
    let mut k = bits.len();
    let ghost start = out@;
    assert(bv.reverse().subrange(0, 0).map_values(|b: bool| bit_char(b)) =~= seq![]);
    while k > 0
        invariant
            k <= bv.len(),
            bits@ == bv,
            out@ == start + bv.reverse().subrange(0, bv.len() - k).map_values(|b: bool| bit_char(b)),
        decreases k,
    {
        let s = bit_str(bits[k - 1]);
        out.append(s);
        proof {
            let done = bv.len() - k;
            assert(bv.reverse()[done] == bv[k - 1]);
            assert(bv.reverse().subrange(0, done + 1).map_values(|b: bool| bit_char(b))
                =~= bv.reverse().subrange(0, done).map_values(|b: bool| bit_char(b)).push(bit_char(bv[k - 1])));
        }
        k = k - 1;
    }
    assert(bv.reverse().subrange(0, bv.len() as int) =~= bv.reverse());
}

/// The bitstream of a grid of tiles: for each row `i` from the top (the
/// tiles whose second index is `n_tiles - 1 - i`) and each column `j` from
/// the left, the bits of tile `tiles[j][n_tiles - 1 - i]`, last bit first.
pub fn output_bitstream(tiles: &Vec<Vec<Tile>>, n_tiles: u16) -> (r: String)
    requires
        tiles@.len() <= n_tiles,
        forall|j: int| 0 <= j < tiles@.len() ==> (#[trigger] tiles@[j])@.len() >= n_tiles,
    ensures
        r@ == rows_text(grid_view(tiles@), n_tiles as int, tiles@.len() as int, tiles@.len() as int),
{
    let ghost g = grid_view(tiles@);
    let len = tiles.len();
    let mut out = String::new();
    let mut i: usize = 0;
    while i < len
        invariant
            len == tiles@.len() <= n_tiles,
            i <= len,
            g == grid_view(tiles@),
            forall|j: int| 0 <= j < tiles@.len() ==> (#[trigger] tiles@[j])@.len() >= n_tiles,
            out@ == rows_text(g, n_tiles as int, i as int, len as int),
        decreases len - i,
    {
        let mut j: usize = 0;
        let ghost before = out@;
        while j < len
            invariant
                len == tiles@.len() <= n_tiles,
                i < len,
                j <= len,
                g == grid_view(tiles@),
                forall|x: int| 0 <= x < tiles@.len() ==> (#[trigger] tiles@[x])@.len() >= n_tiles,
                out@ == before + row_text(g, n_tiles as int, i as int, j as int),
            decreases len - j,
        {
            let y: usize = (n_tiles as usize) - 1 - i;
            assert(g[j as int] == tiles@[j as int].deep_view());
            assert(g[j as int][y as int] == tiles@[j as int]@[y as int].deep_view());
            push_tile_text(&mut out, &tiles[j][y]);
            j = j + 1;
        }
        i = i + 1;
    }
    out
}

/// The character of a decimal digit.
pub open spec fn digit_char(d: int) -> char {
    if d == 0 { '0' } else if d == 1 { '1' } else if d == 2 { '2' } else if d == 3 { '3' }
    else if d == 4 { '4' } else if d == 5 { '5' } else if d == 6 { '6' } else if d == 7 { '7' }
    else if d == 8 { '8' } else { '9' }
}

/// The decimal text of `n`, without leading zeros.
pub open spec fn decimal_text(n: nat) -> Seq<char>
    decreases n,
{
    if n < 10 {
        seq![digit_char(n as int)]
    } else {
        decimal_text(n / 10).push(digit_char((n % 10) as int))
    }
}

/// The text of one decimal digit.
fn digit_str(d: u32) -> (r: &'static str)
    requires
        d < 10,
    ensures
        r@ == seq![digit_char(d as int)],
{
    if d == 0 { proof { reveal_strlit("0"); } "0" }
    else if d == 1 { proof { reveal_strlit("1"); } "1" }
    else if d == 2 { proof { reveal_strlit("2"); } "2" }
    else if d == 3 { proof { reveal_strlit("3"); } "3" }
    else if d == 4 { proof { reveal_strlit("4"); } "4" }
    else if d == 5 { proof { reveal_strlit("5"); } "5" }
    else if d == 6 { proof { reveal_strlit("6"); } "6" }
    else if d == 7 { proof { reveal_strlit("7"); } "7" }
    else if d == 8 { proof { reveal_strlit("8"); } "8" }
    else { proof { reveal_strlit("9"); } "9" }
}

/// Appends the decimal text of `v` (see `decimal_text`) to `out`.
pub fn push_decimal(out: &mut String, v: u32)
    ensures
        final(out)@ == old(out)@ + decimal_text(v as nat),
    decreases v,
{
    if v < 10 {
        out.append(digit_str(v));
    } else {
        push_decimal(out, v / 10);
        out.append(digit_str(v % 10));
        proof {
            assert(old(out)@ + decimal_text((v / 10) as nat) + seq![digit_char((v % 10) as int)]
                =~= old(out)@ + decimal_text(v as nat));
        }
    }
}

/// The `k` binary digits of `i`, most significant first.
pub open spec fn bits_text(i: nat, k: nat) -> Seq<char>
    decreases k,
{
    if k == 0 {
        seq![]
    } else {
        bits_text(i / 2, (k - 1) as nat).push(if i % 2 == 1 { '1' } else { '0' })
    }
}

/// The truth-table line that sets entry `i` of a table with `k` inputs:
/// the inputs in binary, then ` 1`; a table without inputs has the line `1`.
pub open spec fn entry_text(i: nat, k: nat) -> Seq<char> {
    if k == 0 { "1\n"@ } else { bits_text(i, k) + " 1\n"@ }
}

/// Each word followed by a space.
pub open spec fn words_text(ws: Seq<Seq<char>>) -> Seq<char>
    decreases ws.len(),
{
    if ws.len() == 0 { seq![] } else { words_text(ws.drop_last()) + ws.last() + " "@ }
}

/// The lines of the true entries `idxs` of a table with `k` inputs.
pub open spec fn entries_text(idxs: Seq<usize>, k: nat) -> Seq<char>
    decreases idxs.len(),
{
    if idxs.len() == 0 { seq![] } else { entries_text(idxs.drop_last(), k) + entry_text(idxs.last() as nat, k) }
}

/// The body of the `.names` block of a look-up table: its inputs and its
/// output on one line, then a line for each true entry.
pub open spec fn names_text(lb: LogicBlockView) -> Seq<char> {
    words_text(lb.inputs) + lb.output + "\n"@ + entries_text(lb.truth_idxs, lb.inputs.len())
}

/// The `.names` blocks of the look-up tables.
pub open spec fn logic_text(lbs: Seq<LogicBlockView>) -> Seq<char>
    decreases lbs.len(),
{
    if lbs.len() == 0 { seq![] } else { logic_text(lbs.drop_last()) + ".names "@ + names_text(lbs.last()) }
}

/// A model in `.blif` form: `.model`, `.inputs` and `.outputs` lines, the
/// `.names` blocks, and `.end` (with no line feed after it).
pub open spec fn model_text(m: ModelView) -> Seq<char> {
    ".model "@ + m.name + "\n"@ + ".inputs "@ + words_text(m.inputs) + "\n"@
        + ".outputs "@ + words_text(m.outputs) + "\n"@ + logic_text(m.logic) + ".end"@
}

/// The models one after the other.
pub open spec fn blif_text(ms: Seq<ModelView>) -> Seq<char>
    decreases ms.len(),
{
    if ms.len() == 0 { seq![] } else { blif_text(ms.drop_last()) + model_text(ms.last()) }
}

/// Appends each word followed by a space (see `words_text`).
fn push_words(out: &mut String, ws: &Vec<String>)
    ensures
        final(out)@ == old(out)@ + words_text(strings_view(ws@)),
{
    let ghost wv = strings_view(ws@);
    let mut k: usize = 0;
    proof { reveal_strlit(" "); }
    assert(wv.subrange(0, 0) =~= seq![]);
    assert(old(out)@ + seq![] =~= old(out)@);
    while k < ws.len()
        invariant
            k <= ws@.len(),
            wv == strings_view(ws@),
            out@ == old(out)@ + words_text(wv.subrange(0, k as int)),
        decreases ws@.len() - k,
    {
        out.append(ws[k].as_str());
        out.append(" ");
        proof {
            assert(wv.subrange(0, k + 1).drop_last() =~= wv.subrange(0, k as int));
            assert(old(out)@ + words_text(wv.subrange(0, k as int)) + ws@[k as int]@ + " "@
                =~= old(out)@ + words_text(wv.subrange(0, k + 1)));
        }
        k = k + 1;
    }
    assert(wv.subrange(0, ws@.len() as int) =~= wv);
}

/// Appends the `k` binary digits of `i` (see `bits_text`).
fn push_bits(out: &mut String, i: usize, k: usize)
    ensures
        final(out)@ == old(out)@ + bits_text(i as nat, k as nat),
    decreases k,
{
    if k > 0 {
        push_bits(out, i / 2, k - 1);
        out.append(bit_str(i % 2 == 1));
        proof {
            assert(old(out)@ + bits_text((i / 2) as nat, (k - 1) as nat) + seq![bit_char(i % 2 == 1)]
                =~= old(out)@ + bits_text(i as nat, k as nat));
        }
    }
}

/// Appends the body of the `.names` block of `lb` (see `names_text`).
fn push_names(out: &mut String, lb: &LogicBlock)
    ensures
        final(out)@ == old(out)@ + names_text(lb.deep_view()),
{
    proof {
        reveal_strlit("\n");
        reveal_strlit("1\n");
        reveal_strlit(" 1\n");
    }
    let ghost lv = lb.deep_view();
    assert(lv.inputs =~= strings_view(lb.inputs@));
    push_words(out, &lb.inputs);
    out.append(lb.output.as_str());
    out.append("\n");
    let ghost head = out@;
    let k = lb.inputs.len();
    let mut m: usize = 0;
    assert(lv.truth_idxs.subrange(0, 0) =~= seq![]);
    assert(head + seq![] =~= head);
    while m < lb.truth_idxs.len()
        invariant
            m <= lb.truth_idxs@.len(),
            k == lv.inputs.len(),
            lv == lb.deep_view(),
            out@ == head + entries_text(lv.truth_idxs.subrange(0, m as int), k as nat),
        decreases lb.truth_idxs@.len() - m,
    {
        let i = lb.truth_idxs[m];
        if k == 0 {
            out.append("1\n");
        } else {
            push_bits(out, i, k);
            out.append(" 1\n");
        }
        proof {
            assert(lv.truth_idxs.subrange(0, m + 1).drop_last() =~= lv.truth_idxs.subrange(0, m as int));
            assert(head + entries_text(lv.truth_idxs.subrange(0, m as int), k as nat) + entry_text(i as nat, k as nat)
                =~= head + entries_text(lv.truth_idxs.subrange(0, m + 1), k as nat));
        }
        m = m + 1;
    }
    assert(lv.truth_idxs.subrange(0, lb.truth_idxs@.len() as int) =~= lv.truth_idxs);
}

/// What is written for the models: after each model, the text of all the
/// models so far.
pub open spec fn blif_file_text(ms: Seq<ModelView>) -> Seq<char>
    decreases ms.len(),
{
    if ms.len() == 0 { seq![] } else { blif_file_text(ms.drop_last()) + blif_text(ms) }
}

/// The text of a `.blif` file for the models `models` (see
/// `blif_file_text`).
pub fn output_to_blif(models: &Vec<Model>) -> (r: String)
    ensures
        r@ == blif_file_text(models@.map_values(|m: Model| model_view(m))),
{
    proof {
        reveal_strlit("\n");
        reveal_strlit(".model ");
        reveal_strlit(".inputs ");
        reveal_strlit(".outputs ");
        reveal_strlit(".names ");
        reveal_strlit(".end");
    }
    let ghost mv = models@.map_values(|m: Model| model_view(m));
    let mut out = String::new();
    let mut file = String::new();
    let mut j: usize = 0;
    assert(mv.subrange(0, 0) =~= seq![]);
    while j < models.len()
        invariant
            j <= models@.len(),
            mv == models@.map_values(|m: Model| model_view(m)),
            out@ == blif_text(mv.subrange(0, j as int)),
            file@ == blif_file_text(mv.subrange(0, j as int)),
        decreases models@.len() - j,
    {
        let ghost file_before = file@;
        let m = &models[j];
        let ghost before = out@;
        out.append(".model ");
        out.append(m.name.as_str());
        out.append("\n");
        out.append(".inputs ");
        push_words(&mut out, &m.inputs);
        out.append("\n");
        out.append(".outputs ");
        push_words(&mut out, &m.outputs);
        out.append("\n");
        let ghost mid = out@;
        let ghost lbs = m.logic.deep_view();
        let mut b: usize = 0;
        assert(lbs.subrange(0, 0) =~= seq![]);
        assert(mid + seq![] =~= mid);
        while b < m.logic.len()
            invariant
                b <= m.logic@.len(),
                lbs == m.logic.deep_view(),
                out@ == mid + logic_text(lbs.subrange(0, b as int)),
            decreases m.logic@.len() - b,
        {
            out.append(".names ");
            push_names(&mut out, &m.logic[b]);
            proof {
                assert(lbs[b as int] == m.logic@[b as int].deep_view());
                assert(lbs.subrange(0, b + 1).drop_last() =~= lbs.subrange(0, b as int));
                assert(mid + logic_text(lbs.subrange(0, b as int)) + ".names "@ + names_text(lbs[b as int])
                    =~= mid + logic_text(lbs.subrange(0, b + 1)));
            }
            b = b + 1;
        }
        out.append(".end");
        proof {
            assert(lbs.subrange(0, m.logic@.len() as int) =~= lbs);
            let v = model_view(*m);
            assert(mv[j as int] == v);
            assert(mv.subrange(0, j + 1).drop_last() =~= mv.subrange(0, j as int));
            assert(out@ =~= before + model_text(v));
        }
        file.append(out.as_str());
        proof {
            assert(file@ =~= file_before + out@);
        }
        j = j + 1;
    }
    assert(mv.subrange(0, models@.len() as int) =~= mv);
    file
}

/// The text of a tile has one character per programming bit, in reverse
/// order: character `p` shows bit `len - 1 - p`.
pub proof fn law_tile_text(t: TileView)
    ensures
        ({
            let bits = spec_tile_bits(t);
            &&& tile_text(t).len() == bits.len()
            &&& forall|p: int| 0 <= p < bits.len() ==> #[trigger] tile_text(t)[p] == bit_char(bits[bits.len() - 1 - p])
        }),
{
}

proof fn lemma_row_text_layout(g: Seq<Seq<TileView>>, n: int, i: int, m: int, t: int)
    requires
        0 <= m,
        0 <= t,
        forall|c: int| 0 <= c < m ==> (#[trigger] tile_text(g[c][n - 1 - i])).len() == t,
    ensures
        row_text(g, n, i, m).len() == m * t,
        forall|c: int, p: int| 0 <= c < m && 0 <= p < t
            ==> row_text(g, n, i, m)[c * t + p] == #[trigger] tile_text(g[c][n - 1 - i])[p],
    decreases m,
{
    if m == 0 {
        assert(m * t == 0) by (nonlinear_arith) requires m == 0;
    } else {
        lemma_row_text_layout(g, n, i, m - 1, t);
        let prev = row_text(g, n, i, m - 1);
        let last = tile_text(g[m - 1][n - 1 - i]);
        assert(last.len() == t);
        assert((m - 1) * t + t == m * t) by (nonlinear_arith);
        assert forall|c: int, p: int| 0 <= c < m && 0 <= p < t
            implies row_text(g, n, i, m)[c * t + p] == #[trigger] tile_text(g[c][n - 1 - i])[p] by {
            if c < m - 1 {
                assert(c * t + p < (m - 1) * t) by (nonlinear_arith)
                    requires 0 <= c < m - 1, 0 <= p < t;
                assert(0 <= c * t) by (nonlinear_arith) requires 0 <= c, 0 <= t;
            } else {
                assert(c * t == (m - 1) * t);
            }
        }
    }
}

proof fn lemma_rows_text_layout(g: Seq<Seq<TileView>>, n: int, m: int, len: int, t: int)
    requires
        0 <= m,
        0 <= len,
        0 <= t,
        forall|r: int, c: int| 0 <= r < m && 0 <= c < len ==> (#[trigger] tile_text(g[c][n - 1 - r])).len() == t,
    ensures
        rows_text(g, n, m, len).len() == m * (len * t),
        forall|r: int, c: int, p: int| 0 <= r < m && 0 <= c < len && 0 <= p < t
            ==> rows_text(g, n, m, len)[r * (len * t) + c * t + p] == #[trigger] tile_text(g[c][n - 1 - r])[p],
    decreases m,
{
    if m == 0 {
        assert(m * (len * t) == 0) by (nonlinear_arith) requires m == 0;
    } else {
        lemma_rows_text_layout(g, n, m - 1, len, t);
        let r0 = m - 1;
        assert forall|c: int| 0 <= c < len implies (#[trigger] tile_text(g[c][n - 1 - r0])).len() == t by {
            assert(tile_text(g[c][n - 1 - r0]).len() == t);
        }
        lemma_row_text_layout(g, n, r0, len, t);
        assert(0 <= len * t) by (nonlinear_arith) requires 0 <= len, 0 <= t;
        assert((m - 1) * (len * t) + len * t == m * (len * t)) by (nonlinear_arith);
        assert forall|r: int, c: int, p: int| 0 <= r < m && 0 <= c < len && 0 <= p < t
            implies rows_text(g, n, m, len)[r * (len * t) + c * t + p] == #[trigger] tile_text(g[c][n - 1 - r])[p] by {
            assert(0 <= c * t + p < len * t) by (nonlinear_arith)
                requires 0 <= c < len, 0 <= p < t;
            if r < m - 1 {
                assert(r * (len * t) + c * t + p < (m - 1) * (len * t)) by (nonlinear_arith)
                    requires 0 <= r < m - 1, 0 <= c * t + p < len * t;
                assert(0 <= r * (len * t)) by (nonlinear_arith) requires 0 <= r, 0 <= len * t;
            } else {
                assert(r * (len * t) == (m - 1) * (len * t));
                assert(tile_text(g[c][n - 1 - r0])[p] == row_text(g, n, r0, len)[c * t + p]);
            }
        }
    }
}

/// When every tile shown has `t` bits, the bitstream text of `m` rows of
/// `len` tiles holds `t` characters per tile, row by row from the top and
/// tile by tile from the left: the text of tile `g[c][y]` starts at
/// position `((n - 1 - y) * len + c) * t`.
pub proof fn law_bitstream_text_layout(g: Seq<Seq<TileView>>, n: int, m: int, len: int, t: int)
    requires
        0 <= m,
        0 <= len,
        0 <= t,
        forall|c: int, y: int| 0 <= n - 1 - y < m && 0 <= c < len ==> (#[trigger] tile_text(g[c][y])).len() == t,
    ensures
        rows_text(g, n, m, len).len() == m * len * t,
        forall|c: int, y: int, p: int| 0 <= n - 1 - y < m && 0 <= c < len && 0 <= p < t
            ==> rows_text(g, n, m, len)[((n - 1 - y) * len + c) * t + p] == #[trigger] tile_text(g[c][y])[p],
{
    assert forall|r: int, c: int| 0 <= r < m && 0 <= c < len implies (#[trigger] tile_text(g[c][n - 1 - r])).len() == t by {
        let y = n - 1 - r;
        assert(n - 1 - y == r);
        assert(tile_text(g[c][y]).len() == t);
    }
    lemma_rows_text_layout(g, n, m, len, t);
    assert(m * (len * t) == m * len * t) by (nonlinear_arith);
    assert forall|c: int, y: int, p: int| 0 <= n - 1 - y < m && 0 <= c < len && 0 <= p < t
        implies rows_text(g, n, m, len)[((n - 1 - y) * len + c) * t + p] == #[trigger] tile_text(g[c][y])[p] by {
        let r = n - 1 - y;
        assert(y == n - 1 - r);
        assert((r * len + c) * t + p == r * (len * t) + c * t + p) by (nonlinear_arith);
        assert(tile_text(g[c][n - 1 - r])[p] == rows_text(g, n, m, len)[r * (len * t) + c * t + p]);
    }
}

} // verus!
