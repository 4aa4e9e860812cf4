//! Reader for the `.blif` netlists that ABC writes: models, their port
//! lists and their look-up tables (`.names` blocks).
use vstd::prelude::*;
use vstd::utf8::*;
use vstd::string::*;
use vstd::seq_lib::*;
use crate::text::{CharClass, in_class, is_in, run_end, lemma_run_end, skip_run, lit_at, matches_at,
    find_lit, lemma_find_lit, find, all_in, line_spans, spans_view, lemma_line_spans, lines,
    lemma_after_ascii, lemma_text_valid, cut_point, lemma_cut_inside, substr};
use crate::parse::{Parsed, ParseError, agrees};
use crate::types::{LogicBlock, Model};
use crate::model::{LogicBlockView, spec_true_indices};

verus! {

/// The separators that the file is cut at.
#[derive(Clone, Copy, Debug, PartialEq, Eq, Structural)]
pub enum Delim {
    /// One white-space byte.
    Space,
    /// ` \ ` (space, backslash, space), or else one white-space byte.
    List,
    /// A directive: `.`, a word, white space.
    Directive,
    /// `.model` and white space.
    Model,
}

pub open spec fn lit_model() -> Seq<u8> { seq![46u8, 109, 111, 100, 101, 108] }
pub open spec fn lit_continued() -> Seq<u8> { seq![32u8, 92, 32] }

/// The end of the separator `d` that starts at `q` (ending at or before
/// `hi`), or `q` when none starts there.
pub open spec fn delim_end(d: Delim, s: Seq<u8>, q: int, hi: int) -> int {
    if q < 0 || q >= hi || hi > s.len() {
        q
    } else {
        match d {
            Delim::Space => if in_class(CharClass::Space, s[q]) { q + 1 } else { q },
            Delim::List => {
                if lit_at(s, q, hi, lit_continued()) {
                    q + 3
                } else if in_class(CharClass::Space, s[q]) {
                    q + 1
                } else {
                    q
                }
            },
            Delim::Directive => {
                let w = run_end(s, q + 1, hi, CharClass::Word);
                let e = run_end(s, w, hi, CharClass::Space);
                if s[q] == 46 && w > q + 1 && e > w { e } else { q }
            },
            Delim::Model => {
                let e = run_end(s, q + 6, hi, CharClass::Space);
                if lit_at(s, q, hi, lit_model()) && e > q + 6 { e } else { q }
            },
        }
    }
}

/// The first position at or after `p` where a separator `d` starts.
pub open spec fn first_delim(d: Delim, s: Seq<u8>, p: int, hi: int) -> Option<int>
    decreases hi - p,
{
    if p < 0 || p >= hi {
        None
    } else if delim_end(d, s, p, hi) > p {
        Some(p)
    } else {
        first_delim(d, s, p + 1, hi)
    }
}

/// The pieces of `s[p..hi]` between the separators `d`, found from left to
/// right without overlap; the piece after the last separator is kept only
/// when it is not empty.
pub open spec fn split_parts(d: Delim, s: Seq<u8>, p: int, hi: int) -> Seq<(int, int)>
    decreases hi - p + 1,
{
    if p < 0 || p > hi {
        seq![]
    } else {
        match first_delim(d, s, p, hi) {
            None => if p < hi { seq![(p, hi)] } else { seq![] },
            Some(q) => {
                let e = delim_end(d, s, q, hi);
                if q < p || e <= q || e > hi {
                    seq![]
                } else {
                    seq![(p, q)] + split_parts(d, s, e, hi)
                }
            },
        }
    }
}

proof fn lemma_delim_end(d: Delim, s: Seq<u8>, q: int, hi: int)
    requires
        0 <= q,
        hi <= s.len(),
    ensures
        q <= delim_end(d, s, q, hi) <= hi || delim_end(d, s, q, hi) == q,
        delim_end(d, s, q, hi) > q ==> s[q] <= 127 && s[delim_end(d, s, q, hi) - 1] <= 127,
{
    if q < hi {
        match d {
            Delim::Directive => {
                lemma_run_end(s, q + 1, hi, CharClass::Word);
                let w = run_end(s, q + 1, hi, CharClass::Word);
                lemma_run_end(s, w, hi, CharClass::Space);
            },
            Delim::Model => {
                if lit_at(s, q, hi, lit_model()) {
                    assert(s[q] == s.subrange(q, q + 6)[0]);
                    lemma_run_end(s, q + 6, hi, CharClass::Space);
                }
            },
            Delim::List => {
                if lit_at(s, q, hi, lit_continued()) {
                    assert(s[q] == s.subrange(q, q + 3)[0]);
                    assert(s[q + 2] == s.subrange(q, q + 3)[2]);
                }
            },
            _ => {},
        }
    }
}

proof fn lemma_first_delim(d: Delim, s: Seq<u8>, p: int, hi: int)
    requires
        0 <= p,
        hi <= s.len(),
    ensures
        match first_delim(d, s, p, hi) {
            Some(q) => p <= q < hi && delim_end(d, s, q, hi) > q,
            None => true,
        },
    decreases hi - p,
{
    if p < hi && delim_end(d, s, p, hi) <= p {
        lemma_first_delim(d, s, p + 1, hi);
    }
}

/// Every piece lies in `s[p..hi]`; it starts at `p` or after an ASCII
/// byte, and ends at `hi` or before an ASCII byte.
pub proof fn lemma_split_parts(d: Delim, s: Seq<u8>, p: int, hi: int)
    requires
        0 <= p <= hi <= s.len(),
    ensures
        forall|k: int| 0 <= k < split_parts(d, s, p, hi).len() ==> {
            let sp = #[trigger] split_parts(d, s, p, hi)[k];
            &&& p <= sp.0 <= sp.1 <= hi
            &&& (sp.0 == p || s[sp.0 - 1] <= 127)
            &&& (sp.1 == hi || s[sp.1] <= 127)
        },
    decreases hi - p + 1,
{
    lemma_first_delim(d, s, p, hi);
    match first_delim(d, s, p, hi) {
        None => {},
        Some(q) => {
            lemma_delim_end(d, s, q, hi);
            let e = delim_end(d, s, q, hi);
            lemma_split_parts(d, s, e, hi);
            let rest = split_parts(d, s, e, hi);
            assert forall|k: int| 0 <= k < split_parts(d, s, p, hi).len() implies {
                let sp = #[trigger] split_parts(d, s, p, hi)[k];
                &&& p <= sp.0 <= sp.1 <= hi
                &&& (sp.0 == p || s[sp.0 - 1] <= 127)
                &&& (sp.1 == hi || s[sp.1] <= 127)
            } by {
                if k > 0 {
                    assert(split_parts(d, s, p, hi)[k] == rest[k - 1]);
                }
            }
        },
    }
}

/// The end of the separator `d` at `q` (see `delim_end`).
fn delim_end_exec(d: Delim, s: &[u8], q: usize, hi: usize) -> (r: usize)
    requires
        hi <= s@.len(),
    ensures
        r == delim_end(d, s@, q as int, hi as int),
{
    if q >= hi {
        return q;
    }
    match d {
        Delim::Space => if is_in(CharClass::Space, s[q]) { q + 1 } else { q },
        Delim::List => {
            let lit: [u8; 3] = [32u8, 92, 32];
            assert(lit@ =~= lit_continued());
            if matches_at(s, q, hi, &lit) {
                q + 3
            } else if is_in(CharClass::Space, s[q]) {
                q + 1
            } else {
                q
            }
        },
        Delim::Directive => {
            let w = skip_run(s, q + 1, hi, CharClass::Word);
            let e = skip_run(s, w, hi, CharClass::Space);
            if s[q] == 46 && w > q + 1 && e > w { e } else { q }
        },
        Delim::Model => {
            let lit: [u8; 6] = [46u8, 109, 111, 100, 101, 108];
            assert(lit@ =~= lit_model());
            if matches_at(s, q, hi, &lit) {
                let e = skip_run(s, q + 6, hi, CharClass::Space);
                if e > q + 6 { e } else { q }
            } else {
                q
            }
        },
    }
}

/// The pieces of `s[lo..hi]` between the separators `d` (see `split_parts`).
pub fn split(d: Delim, s: &[u8], lo: usize, hi: usize) -> (r: Vec<(usize, usize)>)
    requires
        lo <= hi <= s@.len(),
    ensures
        spans_view(r@) == split_parts(d, s@, lo as int, hi as int),
{
    let mut r: Vec<(usize, usize)> = Vec::new();
    let mut p = lo;
    let mut q = lo;
    assert(spans_view(r@) =~= seq![]);
    loop
        invariant
            lo <= p <= q <= hi <= s@.len(),
            first_delim(d, s@, q as int, hi as int) == first_delim(d, s@, p as int, hi as int),
            spans_view(r@) + split_parts(d, s@, p as int, hi as int) == split_parts(d, s@, lo as int, hi as int),
        decreases hi - p + 1, hi - q + 1,
    {
        let ghost rv = spans_view(r@);
        if q >= hi {
            if p < hi {
                r.push((p, hi));
                proof {
                    assert(spans_view(r@) =~= rv + seq![(p as int, hi as int)]);
                }
            } else {
                assert(rv + seq![] =~= rv);
            }
            return r;
        }
        let e = delim_end_exec(d, s, q, hi);
        if e > q {
            proof { lemma_delim_end(d, s@, q as int, hi as int); }
            r.push((p, q));
            proof {
                assert(spans_view(r@) =~= rv.push((p as int, q as int)));
                assert(split_parts(d, s@, p as int, hi as int) == seq![(p as int, q as int)] + split_parts(d, s@, e as int, hi as int));
                assert(spans_view(r@) + split_parts(d, s@, e as int, hi as int) =~= rv + split_parts(d, s@, p as int, hi as int));
            }
            p = e;
            q = e;
        } else {
            q = q + 1;
        }
    }
}

/// The lines that `l[..n]` stands for when each `-` in it may be `0` or
/// `1`: the last `-` is resolved first, `0` before `1`.
pub open spec fn completions(l: Seq<u8>, n: int) -> Seq<Seq<u8>>
    decreases n,
{
    if n <= 0 || n > l.len() {
        seq![l]
    } else if l[n - 1] == 45 {
        completions(l.update(n - 1, 48), n - 1) + completions(l.update(n - 1, 49), n - 1)
    } else {
        completions(l, n - 1)
    }
}

/// Every completion of a line has its length, has a `0` or a `1` where the
/// line has a `-` and the line's byte everywhere else; there are `2^d` of
/// them for the `d` dashes.
pub proof fn law_completions(l: Seq<u8>)
    ensures
        forall|c: Seq<u8>| #[trigger] completions(l, l.len() as int).contains(c) ==> {
            &&& c.len() == l.len()
            &&& forall|k: int| 0 <= k < l.len() && l[k] == 45 ==> (c[k] == 48 || c[k] == 49)
            &&& forall|k: int| 0 <= k < l.len() && l[k] != 45 ==> c[k] == l[k]
        },
        completions(l, l.len() as int).len() == vstd::arithmetic::power2::pow2(dash_count(l, l.len() as int)),
{
    lemma_completions(l, l.len() as int);
}

/// The number of `-` in `l[..n]`.
pub open spec fn dash_count(l: Seq<u8>, n: int) -> nat
    decreases n,
{
    if n <= 0 || n > l.len() { 0 } else if l[n - 1] == 45 { dash_count(l, n - 1) + 1 } else { dash_count(l, n - 1) }
}

proof fn lemma_dash_count_update(l: Seq<u8>, n: int, i: int, v: u8)
    requires
        0 <= n <= i < l.len(),
    ensures
        dash_count(l.update(i, v), n) == dash_count(l, n),
    decreases n,
{
    if n > 0 {
        lemma_dash_count_update(l, n - 1, i, v);
    }
}

proof fn lemma_completions(l: Seq<u8>, n: int)
    requires
        0 <= n <= l.len(),
    ensures
        forall|c: Seq<u8>| #[trigger] completions(l, n).contains(c) ==> {
            &&& c.len() == l.len()
            &&& forall|k: int| 0 <= k < n && l[k] == 45 ==> (c[k] == 48 || c[k] == 49)
            &&& forall|k: int| 0 <= k < l.len() && (k >= n || l[k] != 45) ==> c[k] == l[k]
        },
        completions(l, n).len() == vstd::arithmetic::power2::pow2(dash_count(l, n)),
    decreases n,
{
    if n == 0 {
        vstd::arithmetic::power2::lemma2_to64();
        assert forall|c: Seq<u8>| #[trigger] completions(l, n).contains(c) implies c == l by {
            assert(completions(l, n) == seq![l]);
        }
    } else if l[n - 1] == 45 {
        let l0 = l.update(n - 1, 48);
        let l1 = l.update(n - 1, 49);
        lemma_completions(l0, n - 1);
        lemma_completions(l1, n - 1);
        lemma_dash_count_update(l, n - 1, n - 1, 48);
        lemma_dash_count_update(l, n - 1, n - 1, 49);
        vstd::arithmetic::power2::lemma_pow2_unfold(dash_count(l, n));
        let a = completions(l0, n - 1);
        let b = completions(l1, n - 1);
        assert forall|c: Seq<u8>| #[trigger] completions(l, n).contains(c) implies {
            &&& c.len() == l.len()
            &&& forall|k: int| 0 <= k < n && l[k] == 45 ==> (c[k] == 48 || c[k] == 49)
            &&& forall|k: int| 0 <= k < l.len() && (k >= n || l[k] != 45) ==> c[k] == l[k]
        } by {
            let j = choose|j: int| 0 <= j < (a + b).len() && (a + b)[j] == c;
            if j < a.len() {
                assert(a.contains(c));
            } else {
                assert(b[j - a.len()] == c);
                assert(b.contains(c));
            }
        }
    } else {
        lemma_completions(l, n - 1);
    }
}

/// The completions of all the lines, in order.
pub open spec fn all_completions(ls: Seq<Seq<u8>>) -> Seq<Seq<u8>>
    decreases ls.len(),
{
    if ls.len() == 0 {
        seq![]
    } else {
        completions(ls[0], ls[0].len() as int) + all_completions(ls.drop_first())
    }
}

/// Byte-wise lexicographic order, as `String`s are ordered.
pub open spec fn lex_le(a: Seq<u8>, b: Seq<u8>) -> bool
    decreases a.len(),
{
    if a.len() == 0 {
        true
    } else if b.len() == 0 {
        false
    } else if a[0] != b[0] {
        a[0] < b[0]
    } else {
        lex_le(a.drop_first(), b.drop_first())
    }
}

pub open spec fn lines_view(v: Seq<Vec<u8>>) -> Seq<Seq<u8>> {
    v.map_values(|x: Vec<u8>| x@)
}

pub open spec fn sorted(v: Seq<Seq<u8>>) -> bool {
    forall|i: int, j: int| 0 <= i < j < v.len() ==> lex_le(v[i], v[j])
}

proof fn lemma_lex_total(a: Seq<u8>, b: Seq<u8>)
    ensures
        lex_le(a, b) || lex_le(b, a),
    decreases a.len(),
{
    if a.len() > 0 && b.len() > 0 && a[0] == b[0] {
        lemma_lex_total(a.drop_first(), b.drop_first());
    }
}

proof fn lemma_lex_trans(a: Seq<u8>, b: Seq<u8>, c: Seq<u8>)
    requires
        lex_le(a, b),
        lex_le(b, c),
    ensures
        lex_le(a, c),
    decreases a.len(),
{
    if a.len() > 0 && b.len() > 0 && c.len() > 0 && a[0] == b[0] && b[0] == c[0] {
        lemma_lex_trans(a.drop_first(), b.drop_first(), c.drop_first());
    }
}

/// Whether `a` comes no later than `b` (see `lex_le`).
fn lex_le_exec(a: &Vec<u8>, b: &Vec<u8>) -> (r: bool)
    ensures
        r == lex_le(a@, b@),
{
    let mut i: usize = 0;
    assert(a@.subrange(0, a@.len() as int) =~= a@);
    assert(b@.subrange(0, b@.len() as int) =~= b@);
    while i < a.len() && i < b.len() && a[i] == b[i]
        invariant
            i <= a@.len(),
            i <= b@.len(),
            a@.subrange(0, i as int) == b@.subrange(0, i as int),
            lex_le(a@, b@) == lex_le(a@.subrange(i as int, a@.len() as int), b@.subrange(i as int, b@.len() as int)),
        decreases a@.len() - i,
    {
        proof {
            let sa = a@.subrange(i as int, a@.len() as int);
            let sb = b@.subrange(i as int, b@.len() as int);
            assert(sa.drop_first() =~= a@.subrange(i + 1, a@.len() as int));
            assert(sb.drop_first() =~= b@.subrange(i + 1, b@.len() as int));
            assert(a@.subrange(0, i + 1) =~= a@.subrange(0, i as int).push(a@[i as int]));
            assert(b@.subrange(0, i + 1) =~= b@.subrange(0, i as int).push(b@[i as int]));
        }
        i = i + 1;
    }
    proof {
        let sa = a@.subrange(i as int, a@.len() as int);
        let sb = b@.subrange(i as int, b@.len() as int);
        if i < a@.len() && i < b@.len() {
            assert(sa[0] == a@[i as int]);
            assert(sb[0] == b@[i as int]);
        }
    }
    if i == a.len() {
        true
    } else if i == b.len() {
        false
    } else {
        a[i] < b[i]
    }
}

/// The lines in `ls` sorted in `String` order; the result holds the same
/// lines as `ls`, as often.
pub fn sort_lines(ls: Vec<Vec<u8>>) -> (r: Vec<Vec<u8>>)
    ensures
        sorted(lines_view(r@)),
        lines_view(r@).to_multiset() == lines_view(ls@).to_multiset(),
{
    let mut out: Vec<Vec<u8>> = Vec::new();
    let mut k: usize = 0;
    proof {
        broadcast use vstd::multiset::group_multiset_axioms;
        assert(lines_view(out@) =~= seq![]);
        assert(lines_view(ls@).subrange(0, 0) =~= seq![]);
    }
    while k < ls.len()
        invariant
            k <= ls@.len(),
            sorted(lines_view(out@)),
            lines_view(out@).to_multiset() == lines_view(ls@).subrange(0, k as int).to_multiset(),
        decreases ls@.len() - k,
    {
        let x = ls[k].clone();
        assert(x@ =~= ls@[k as int]@);
        let ghost ov = lines_view(out@);
        let mut p: usize = 0;
        while p < out.len() && lex_le_exec(&out[p], &x)
            invariant
                p <= out@.len(),
                lines_view(out@) == ov,
                forall|i: int| 0 <= i < p ==> lex_le(#[trigger] ov[i], x@),
            decreases out@.len() - p,
        {
            assert(ov[p as int] == out@[p as int]@);
            p = p + 1;
        }
        proof {
            if p < ov.len() {
                assert(ov[p as int] == out@[p as int]@);
                lemma_lex_total(ov[p as int], x@);
            }
        }
        out.insert(p, x);
        proof {
            let nv = lines_view(out@);
            assert(nv =~= ov.insert(p as int, x@));
            assert forall|i: int, j: int| 0 <= i < j < nv.len() implies lex_le(nv[i], nv[j]) by {
                if j > p {
                    if j - 1 > p {
                        lemma_lex_trans(x@, ov[p as int], ov[j - 1]);
                    }
                }
            }
            to_multiset_insert(ov, p as int, x@);
            assert(lines_view(ls@).subrange(0, k + 1) =~= lines_view(ls@).subrange(0, k as int).push(lines_view(ls@)[k as int]));
            to_multiset_build(lines_view(ls@).subrange(0, k as int), lines_view(ls@)[k as int]);
        }
        k = k + 1;
    }
    proof {
        assert(lines_view(ls@).subrange(0, ls@.len() as int) =~= lines_view(ls@));
    }
    out
}

/// The completions of `l[..n]` (see `completions`).
fn expand(l: Vec<u8>, n: usize) -> (r: Vec<Vec<u8>>)
    requires
        n <= l@.len(),
    ensures
        lines_view(r@) == completions(l@, n as int),
    decreases n,
{
    if n == 0 {
        let mut r: Vec<Vec<u8>> = Vec::new();
        let ghost lv = l@;
        r.push(l);
        assert(lines_view(r@) =~= seq![lv]);
        return r;
    }
    if l[n - 1] == 45 {
        let mut l0 = l.clone();
        assert(l0@ =~= l@);
        l0.set(n - 1, 48);
        let mut l1 = l;
        l1.set(n - 1, 49);
        let mut r0 = expand(l0, n - 1);
        let r1 = expand(l1, n - 1);
        let ghost v0 = lines_view(r0@);
        let mut r1 = r1;
        let ghost v1 = lines_view(r1@);
        r0.append(&mut r1);
        assert(lines_view(r0@) =~= v0 + v1);
        r0
    } else {
        expand(l, n - 1)
    }
}

/// The lines of a truth table with every `-` resolved both ways, sorted:
/// the result holds exactly the completions of the lines, as often as they
/// occur, in `String` order.
pub fn replace(ls: Vec<Vec<u8>>) -> (r: Vec<Vec<u8>>)
    ensures
        sorted(lines_view(r@)),
        lines_view(r@).to_multiset() == all_completions(lines_view(ls@)).to_multiset(),
{
    let mut all: Vec<Vec<u8>> = Vec::new();
    let mut k: usize = 0;
    let ghost lv = lines_view(ls@);
    assert(lines_view(all@) =~= seq![]);
    assert(lv.subrange(0, lv.len() as int) =~= lv);
    while k < ls.len()
        invariant
            k <= ls@.len(),
            lv == lines_view(ls@),
            lines_view(all@) + all_completions(lv.subrange(k as int, lv.len() as int)) == all_completions(lv),
        decreases ls@.len() - k,
    {
        let l = ls[k].clone();
        assert(l@ =~= ls@[k as int]@);
        let n = l.len();
        let mut e = expand(l, n);
        let ghost av = lines_view(all@);
        let ghost ev = lines_view(e@);
        all.append(&mut e);
        proof {
            let rest = lv.subrange(k as int, lv.len() as int);
            assert(rest[0] == lv[k as int]);
            assert(rest.drop_first() =~= lv.subrange(k + 1, lv.len() as int));
            assert(lines_view(all@) =~= av + ev);
            assert(av + ev + all_completions(lv.subrange(k + 1, lv.len() as int)) =~= av + (ev + all_completions(lv.subrange(k + 1, lv.len() as int))));
        }
        k = k + 1;
    }
    proof {
        assert(lv.subrange(lv.len() as int, lv.len() as int) =~= seq![]);
        assert(lines_view(all@) + seq![] =~= lines_view(all@));
    }
    sort_lines(all)
}

/// Whether the line `s[a..b]` holds a backslash, which continues the list
/// of names on the next line.
pub open spec fn has_backslash(s: Seq<u8>, a: int, b: int) -> bool {
    find_lit(s, a, b, seq![92u8]) is Some
}

/// The first line from `ls[k]` on without a backslash.
pub open spec fn first_plain(s: Seq<u8>, ls: Seq<(int, int)>, k: int) -> Option<int>
    decreases ls.len() - k,
{
    if k < 0 || k >= ls.len() {
        None
    } else if !has_backslash(s, ls[k].0, ls[k].1) {
        Some(k)
    } else {
        first_plain(s, ls, k + 1)
    }
}

/// The names of the lines `ls[..=j]`, each line cut at every white-space
/// byte.
pub open spec fn name_tokens(s: Seq<u8>, ls: Seq<(int, int)>, j: int) -> Seq<(int, int)>
    decreases j + 1,
{
    if j < 0 || j >= ls.len() {
        seq![]
    } else {
        name_tokens(s, ls, j - 1) + split_parts(Delim::Space, s, ls[j].0, ls[j].1)
    }
}

/// The texts of the spans `sp` of `s`.
pub open spec fn texts(s: Seq<u8>, sp: Seq<(int, int)>) -> Seq<Seq<char>> {
    sp.map_values(|p: (int, int)| decode_utf8(s.subrange(p.0, p.1)))
}

/// The bytes of the spans `sp` of `s`.
pub open spec fn span_bytes(s: Seq<u8>, sp: Seq<(int, int)>) -> Seq<Seq<u8>> {
    sp.map_values(|p: (int, int)| s.subrange(p.0, p.1))
}

/// Digits at `p`, a space and a digit: the inputs of a truth-table line
/// and the start of its output.
pub open spec fn entry_at(c: Seq<u8>, p: int) -> Option<(int, int)> {
    let e = run_end(c, p, c.len() as int, CharClass::Digit);
    if 0 <= p && e > p && e + 1 < c.len() && c[e] == 32 && in_class(CharClass::Digit, c[e + 1]) {
        Some((p, e))
    } else {
        None
    }
}

/// The first `entry_at` from `p` on.
pub open spec fn find_entry(c: Seq<u8>, p: int) -> Option<(int, int)>
    decreases c.len() - p,
{
    if p < 0 || p >= c.len() {
        None
    } else {
        match entry_at(c, p) {
            Some(r) => Some(r),
            None => find_entry(c, p + 1),
        }
    }
}

/// The value of the binary digits `c[a..b]`.
pub open spec fn bin_value(c: Seq<u8>, a: int, b: int) -> int
    decreases b - a,
{
    if b <= a {
        0
    } else {
        bin_value(c, a, b - 1) * 2 + (c[b - 1] - 48)
    }
}

pub open spec fn all_binary(c: Seq<u8>, a: int, b: int) -> bool {
    forall|k: int| a <= k < b ==> (#[trigger] c[k] == 48 || c[k] == 49)
}

/// The entry of a 3-input truth table that the line `c` sets: its input
/// digits read as a binary number. A line without inputs, with more than
/// three input digits, or with a digit other than 0 and 1 has none.
pub open spec fn entry_index(c: Seq<u8>) -> Option<int> {
    match find_entry(c, 0) {
        None => None,
        Some(r) => {
            if r.1 - r.0 > 3 || !all_binary(c, r.0, r.1) {
                None
            } else {
                Some(bin_value(c, r.0, r.1))
            }
        },
    }
}

/// The look-up table of the `.names` block `s[lo..hi]`.
///
/// Its first line, and the lines after each one that holds a backslash,
/// list the names: the last is the output, the others the inputs. The
/// lines after them are the truth table, in which a `-` stands for both
/// digits; entry `i` of the 8 is true when a completed line sets it. A
/// block without a line that ends the names, or with a completed line that
/// sets no entry, aborts; one without names is an error.
pub open spec fn spec_lut(s: Seq<u8>, lo: int, hi: int) -> Parsed<LogicBlockView> {
    let ls = line_spans(s, lo, hi);
    match first_plain(s, ls, 0) {
        None => Parsed::Aborted,
        Some(j) => {
            let toks = texts(s, name_tokens(s, ls, j));
            let comps = all_completions(span_bytes(s, ls.subrange(j + 1, ls.len() as int)));
            if toks.len() == 0 {
                Parsed::Failed(ParseError::MissingOutput)
            } else if exists|c: Seq<u8>| comps.contains(c) && entry_index(c) is None {
                Parsed::Aborted
            } else {
                let tt = Seq::new(8, |i: int| exists|c: Seq<u8>| comps.contains(c) && entry_index(c) == Some(i));
                Parsed::Done(LogicBlockView {
                    inputs: toks.drop_last(),
                    output: toks.last(),
                    truth_table: tt,
                    truth_idxs: spec_true_indices(tt, 8),
                })
            }
        },
    }
}

proof fn lemma_entry(c: Seq<u8>, p: int)
    requires
        0 <= p,
        find_entry(c, p) is Some,
    ensures
        ({
            let r = find_entry(c, p)->0;
            p <= r.0 < r.1 < c.len()
        }),
    decreases c.len() - p,
{
    if entry_at(c, p) is Some {
        lemma_run_end(c, p, c.len() as int, CharClass::Digit);
    } else {
        lemma_entry(c, p + 1);
    }
}

/// The entry that the line `c` sets (see `entry_index`).
fn entry_index_exec(c: &Vec<u8>) -> (r: Option<usize>)
    ensures
        match r {
            Some(i) => entry_index(c@) == Some(i as int) && i < 8,
            None => entry_index(c@) is None,
        },
{
    let n = c.len();
    let mut p: usize = 0;
    while p < n
        invariant
            p <= n == c@.len(),
            find_entry(c@, p as int) == find_entry(c@, 0),
        decreases n - p,
    {
        let e = skip_run(c.as_slice(), p, n, CharClass::Digit);
        if e > p && n - e > 1 && c[e] == 32 && is_in(CharClass::Digit, c[e + 1]) {
            assert(entry_at(c@, p as int) == Some((p as int, e as int)));
            assert(find_entry(c@, p as int) == Some((p as int, e as int)));
            if e - p > 3 {
                return None;
            }
            let mut v: usize = 0;
            let mut k = p;
            while k < e
                invariant
                    p <= k <= e < n == c@.len(),
                    e - p <= 3,
                    find_entry(c@, 0) == Some((p as int, e as int)),
                    all_binary(c@, p as int, k as int),
                    v == bin_value(c@, p as int, k as int),
                    k - p == 0 ==> v == 0,
                    k - p == 1 ==> v < 2,
                    k - p == 2 ==> v < 4,
                    k - p == 3 ==> v < 8,
                decreases e - k,
            {
                if c[k] != 48 && c[k] != 49 {
                    assert(!all_binary(c@, p as int, e as int));
                    return None;
                }
                v = v * 2 + (c[k] - 48) as usize;
                k = k + 1;
            }
            return Some(v);
        }
        p = p + 1;
    }
    None
}


pub open spec fn strings_view(v: Seq<String>) -> Seq<Seq<char>> {
    v.map_values(|x: String| x@)
}

/// The bytes `s[a..b]`.
fn copy_bytes(s: &[u8], a: usize, b: usize) -> (r: Vec<u8>)
    requires
        a <= b <= s@.len(),
    ensures
        r@ == s@.subrange(a as int, b as int),
{
    let mut r: Vec<u8> = Vec::new();
    let mut k = a;
    while k < b
        invariant
            a <= k <= b <= s@.len(),
            r@ == s@.subrange(a as int, k as int),
        decreases b - k,
    {
        r.push(s[k]);
        assert(s@.subrange(a as int, k + 1) =~= s@.subrange(a as int, k as int).push(s@[k as int]));
        k = k + 1;
    }
    r
}

/// The texts of the pieces of `s[a..b]` cut at the separators `d`, added to
/// `out`.
fn push_texts(text: &str, s: &[u8], d: Delim, a: usize, b: usize, out: &mut Vec<String>)
    requires
        s@ == text.spec_bytes(),
        a <= b <= s@.len(),
        cut_point(s@, a as int),
        cut_point(s@, b as int),
    ensures
        strings_view(final(out)@) == strings_view(old(out)@) + texts(s@, split_parts(d, s@, a as int, b as int)),
{
    let parts = split(d, s, a, b);
    let ghost pv = spans_view(parts@);
    let ghost ov = strings_view(out@);
    proof {
        lemma_split_parts(d, s@, a as int, b as int);
        lemma_text_valid(text);
    }
    let mut k: usize = 0;
    assert(texts(s@, pv.subrange(0, 0)) =~= seq![]);
    assert(ov + seq![] =~= ov);
    while k < parts.len()
        invariant
            k <= parts@.len(),
            pv == spans_view(parts@),
            pv == split_parts(d, s@, a as int, b as int),
            s@ == text.spec_bytes(),
            valid_utf8(s@),
            cut_point(s@, a as int),
            cut_point(s@, b as int),
            forall|j: int| 0 <= j < pv.len() ==> {
                let sp = #[trigger] pv[j];
                &&& a <= sp.0 <= sp.1 <= b
                &&& (sp.0 == a || s@[sp.0 - 1] <= 127)
                &&& (sp.1 == b || s@[sp.1] <= 127)
            },
            strings_view(out@) == ov + texts(s@, pv.subrange(0, k as int)),
        decreases parts@.len() - k,
    {
        let (x, y) = parts[k];
        assert(pv[k as int] == (x as int, y as int));
        proof {
            lemma_cut_inside(s@, a as int, b as int, x as int);
            lemma_cut_inside(s@, a as int, b as int, y as int);
        }
        let w = substr(text, x, y);
        let ghost before = strings_view(out@);
        out.push(w);
        proof {
            assert(strings_view(out@) =~= before.push(w@));
            assert(texts(s@, pv.subrange(0, k + 1)) =~= texts(s@, pv.subrange(0, k as int)).push(w@));
        }
        k = k + 1;
    }
    assert(pv.subrange(0, pv.len() as int) =~= pv);
}

/// The first line from `ls[k]` on without a backslash (see `first_plain`).
fn first_plain_exec(s: &[u8], ls: &Vec<(usize, usize)>) -> (r: Option<usize>)
    requires
        forall|k: int| 0 <= k < ls@.len() ==> (#[trigger] ls@[k]).0 <= ls@[k].1 <= s@.len(),
    ensures
        match r {
            Some(j) => first_plain(s@, spans_view(ls@), 0) == Some(j as int) && j < ls@.len(),
            None => first_plain(s@, spans_view(ls@), 0) is None,
        },
{
    let ghost lv = spans_view(ls@);
    let bs: [u8; 1] = [92u8];
    assert(bs@ =~= seq![92u8]);
    let mut k: usize = 0;
    while k < ls.len()
        invariant
            k <= ls@.len(),
            lv == spans_view(ls@),
            bs@ == seq![92u8],
            forall|j: int| 0 <= j < ls@.len() ==> (#[trigger] ls@[j]).0 <= ls@[j].1 <= s@.len(),
            first_plain(s@, lv, k as int) == first_plain(s@, lv, 0),
        decreases ls@.len() - k,
    {
        assert(lv[k as int] == (ls@[k as int].0 as int, ls@[k as int].1 as int));
        if find(s, ls[k].0, ls[k].1, &bs).is_none() {
            return Some(k);
        }
        k = k + 1;
    }
    None
}

/// Reads the `.names` block `s[lo..hi]` of `text` (see `spec_lut`).
fn parse_lut(text: &str, s: &[u8], lo: usize, hi: usize) -> (r: Parsed<LogicBlock>)
    requires
        s@ == text.spec_bytes(),
        lo <= hi <= s@.len(),
        cut_point(s@, lo as int),
        cut_point(s@, hi as int),
    ensures
        agrees(r, spec_lut(s@, lo as int, hi as int), |b: LogicBlock| b.deep_view()),
{
    let ls = lines(s, lo, hi);
    let ghost lv = spans_view(ls@);
    proof {
        lemma_line_spans(s@, lo as int, hi as int);
        lemma_text_valid(text);
    }
    assert forall|k: int| 0 <= k < ls@.len() implies (#[trigger] ls@[k]).0 <= ls@[k].1 <= s@.len() by {
        assert(lv[k] == (ls@[k].0 as int, ls@[k].1 as int));
    }
    let j = match first_plain_exec(s, &ls) {
        None => { return Parsed::Aborted; },
        Some(j) => j,
    };
    // the names
    let mut names: Vec<String> = Vec::new();
    let mut k: usize = 0;
    let nls = ls.len();
    assert(j < nls);
    let jn = j + 1;
    assert(strings_view(names@) =~= seq![]);
    while k < jn
        invariant
            jn == j + 1,
            j < ls@.len(),
            k <= j + 1,
            lv == spans_view(ls@),
            s@ == text.spec_bytes(),
            valid_utf8(s@),
            cut_point(s@, lo as int),
            cut_point(s@, hi as int),
            forall|i: int| 0 <= i < lv.len() ==> {
                let sp = #[trigger] lv[i];
                &&& lo <= sp.0 <= sp.1 <= hi
                &&& (sp.1 == hi || s@[sp.1] == 10 || s@[sp.1] == 13)
                &&& (sp.0 == lo || s@[sp.0 - 1] == 10)
            },
            strings_view(names@) == texts(s@, name_tokens(s@, lv, k - 1)),
        decreases j + 1 - k,
    {
        let (a, b) = ls[k];
        assert(lv[k as int] == (a as int, b as int));
        proof {
            lemma_cut_inside(s@, lo as int, hi as int, a as int);
            lemma_cut_inside(s@, lo as int, hi as int, b as int);
        }
        let ghost before = strings_view(names@);
        push_texts(text, s, Delim::Space, a, b, &mut names);
        proof {
            assert(name_tokens(s@, lv, k as int) == name_tokens(s@, lv, k - 1) + split_parts(Delim::Space, s@, a as int, b as int));
            assert(texts(s@, name_tokens(s@, lv, k as int)) =~= texts(s@, name_tokens(s@, lv, k - 1)) + texts(s@, split_parts(Delim::Space, s@, a as int, b as int)));
            lemma_split_parts(Delim::Space, s@, a as int, b as int);
        }
        k = k + 1;
    }
    let ghost toks = strings_view(names@);
    if names.len() == 0 {
        return Parsed::Failed(ParseError::MissingOutput);
    }
    let output = names.pop().unwrap();
    assert(strings_view(names@) =~= toks.drop_last());
    // the truth table
    let mut tl: Vec<Vec<u8>> = Vec::new();
    let mut k: usize = j + 1;
    let ghost rest = lv.subrange(j + 1, lv.len() as int);
    assert(lines_view(tl@) =~= span_bytes(s@, rest.subrange(0, 0)));
    while k < ls.len()
        invariant
            j < k <= ls@.len(),
            lv == spans_view(ls@),
            rest == lv.subrange(j + 1, lv.len() as int),
            forall|i: int| 0 <= i < ls@.len() ==> (#[trigger] ls@[i]).0 <= ls@[i].1 <= s@.len(),
            lines_view(tl@) == span_bytes(s@, rest.subrange(0, k - j - 1)),
        decreases ls@.len() - k,
    {
        assert(lv[k as int] == (ls@[k as int].0 as int, ls@[k as int].1 as int));
        let l = copy_bytes(s, ls[k].0, ls[k].1);
        let ghost before = lines_view(tl@);
        tl.push(l);
        proof {
            assert(lines_view(tl@) =~= before.push(l@));
            assert(span_bytes(s@, rest.subrange(0, k - j)) =~= span_bytes(s@, rest.subrange(0, k - j - 1)).push(l@));
        }
        k = k + 1;
    }
    assert(rest.subrange(0, rest.len() as int) =~= rest);
    let ghost comps = all_completions(span_bytes(s@, rest));
    assert(lines_view(tl@) == span_bytes(s@, rest));
    let rows = replace(tl);
    let ghost rv = lines_view(rows@);
    let mut truth: Vec<bool> = Vec::new();
    let mut i: usize = 0;
    while i < 8
        invariant
            i <= 8,
            truth@ == Seq::new(i as nat, |x: int| false),
        decreases 8 - i,
    {
        truth.push(false);
        assert(truth@ =~= Seq::new((i + 1) as nat, |x: int| false));
        i = i + 1;
    }
    let mut m: usize = 0;
    while m < rows.len()
        invariant
            m <= rows@.len(),
            rv == lines_view(rows@),
            rv.to_multiset() == comps.to_multiset(),
            lv == line_spans(s@, lo as int, hi as int),
            first_plain(s@, lv, 0) == Some(j as int),
            rest == lv.subrange(j + 1, lv.len() as int),
            comps == all_completions(span_bytes(s@, rest)),
            toks == texts(s@, name_tokens(s@, lv, j as int)),
            toks.len() > 0,
            truth@.len() == 8,
            forall|x: int| 0 <= x < m ==> (#[trigger] entry_index(rv[x])) is Some,
            forall|x: int| 0 <= x < 8 ==> (#[trigger] truth@[x] <==> exists|y: int| 0 <= y < m && entry_index(rv[y]) == Some(x)),
        decreases rows@.len() - m,
    {
        assert(rv[m as int] == rows@[m as int]@);
        match entry_index_exec(&rows[m]) {
            None => {
                proof {
                    let c = rv[m as int];
                    assert(rv.contains(c));
                    to_multiset_contains(rv, c);
                    to_multiset_contains(comps, c);
                    assert(comps.contains(c));
                    assert(entry_index(c) is None);
                }
                return Parsed::Aborted;
            },
            Some(ix) => {
                let ghost tb = truth@;
                truth.set(ix, true);
                proof {
                    assert forall|x: int| 0 <= x < 8 implies (#[trigger] truth@[x] <==> exists|y: int| 0 <= y < m + 1 && entry_index(rv[y]) == Some(x)) by {
                        if x == ix {
                        } else {
                            if exists|y: int| 0 <= y < m + 1 && entry_index(rv[y]) == Some(x) {
                                let y = choose|y: int| 0 <= y < m + 1 && entry_index(rv[y]) == Some(x);
                                assert(y < m);
                            }
                        }
                    }
                }
            },
        }
        m = m + 1;
    }
    let ghost tt = Seq::new(8, |x: int| exists|c: Seq<u8>| comps.contains(c) && entry_index(c) == Some(x));
    proof {
        assert forall|c: Seq<u8>| comps.contains(c) implies entry_index(c) is Some by {
            to_multiset_contains(rv, c);
            to_multiset_contains(comps, c);
            let y = choose|y: int| 0 <= y < rv.len() && rv[y] == c;
        }
        assert forall|x: int| 0 <= x < 8 implies truth@[x] == tt[x] by {
            if truth@[x] {
                let y = choose|y: int| 0 <= y < rows@.len() && entry_index(rv[y]) == Some(x);
                let c = rv[y];
                assert(rv.contains(c));
                to_multiset_contains(rv, c);
                to_multiset_contains(comps, c);
            }
            if tt[x] {
                let c = choose|c: Seq<u8>| comps.contains(c) && entry_index(c) == Some(x);
                to_multiset_contains(rv, c);
                to_multiset_contains(comps, c);
                let y = choose|y: int| 0 <= y < rv.len() && rv[y] == c;
            }
        }
        assert(truth@ =~= tt);
    }
    let mut idxs: Vec<usize> = Vec::new();
    let mut i: usize = 0;
    while i < 8
        invariant
            i <= 8,
            truth@.len() == 8,
            idxs@ == spec_true_indices(truth@, i as int),
        decreases 8 - i,
    {
        if truth[i] {
            idxs.push(i);
        }
        i = i + 1;
    }
    let lb = LogicBlock { inputs: names, output, truth_table: truth, truth_idxs: idxs };
    proof {
        assert(lb.inputs.deep_view() =~= strings_view(lb.inputs@));
        assert(output@ == toks.last());
        assert(!(exists|c: Seq<u8>| comps.contains(c) && entry_index(c) is None));
    }
    Parsed::Done(lb)
}

/// The abstract content of a model.
pub struct ModelView {
    pub name: Seq<char>,
    pub inputs: Seq<Seq<char>>,
    pub outputs: Seq<Seq<char>>,
    pub latched: Seq<Seq<char>>,
    pub logic: Seq<LogicBlockView>,
}

pub open spec fn model_view(m: Model) -> ModelView {
    ModelView {
        name: m.name@,
        inputs: strings_view(m.inputs@),
        outputs: strings_view(m.outputs@),
        latched: strings_view(m.latched@),
        logic: m.logic.deep_view(),
    }
}

/// The look-up tables of the pieces `parts[k..]` of a model.
pub open spec fn luts_of(s: Seq<u8>, parts: Seq<(int, int)>, k: int) -> Parsed<Seq<LogicBlockView>>
    decreases parts.len() - k,
{
    if k < 0 || k >= parts.len() {
        Parsed::Done(seq![])
    } else {
        match spec_lut(s, parts[k].0, parts[k].1) {
            Parsed::Done(b) => match luts_of(s, parts, k + 1) {
                Parsed::Done(bs) => Parsed::Done(seq![b] + bs),
                other => other,
            },
            Parsed::Failed(e) => Parsed::Failed(e),
            Parsed::Aborted => Parsed::Aborted,
        }
    }
}

/// The model of `s[lo..hi]`, the text after a `.model`.
///
/// The text is cut at its directives (`.inputs`, `.outputs`, `.names`,
/// ...): the first piece is the name, the second the inputs and the third
/// the outputs, each list cut at ` \ ` and at white space; each further
/// piece is a look-up table (see `spec_lut`). Fewer than three pieces
/// abort.
pub open spec fn spec_model(s: Seq<u8>, lo: int, hi: int) -> Parsed<ModelView> {
    let parts = split_parts(Delim::Directive, s, lo, hi);
    if parts.len() < 3 {
        Parsed::Aborted
    } else {
        match luts_of(s, parts, 3) {
            Parsed::Done(lbs) => Parsed::Done(ModelView {
                name: decode_utf8(s.subrange(parts[0].0, parts[0].1)),
                inputs: texts(s, split_parts(Delim::List, s, parts[1].0, parts[1].1)),
                outputs: texts(s, split_parts(Delim::List, s, parts[2].0, parts[2].1)),
                latched: seq![],
                logic: lbs,
            }),
            Parsed::Failed(e) => Parsed::Failed(e),
            Parsed::Aborted => Parsed::Aborted,
        }
    }
}

/// The models of the pieces `parts[k..]` of a file.
pub open spec fn models_of(s: Seq<u8>, parts: Seq<(int, int)>, k: int) -> Parsed<Seq<ModelView>>
    decreases parts.len() - k,
{
    if k < 0 || k >= parts.len() {
        Parsed::Done(seq![])
    } else {
        match spec_model(s, parts[k].0, parts[k].1) {
            Parsed::Done(m) => match models_of(s, parts, k + 1) {
                Parsed::Done(ms) => Parsed::Done(seq![m] + ms),
                other => other,
            },
            Parsed::Failed(e) => Parsed::Failed(e),
            Parsed::Aborted => Parsed::Aborted,
        }
    }
}

/// The models of a `.blif` file: the text is cut at each `.model` and the
/// white space after it; the piece before the first is the header, which
/// must not be empty, and each other piece is a model (see `spec_model`).
pub open spec fn spec_blif_file(s: Seq<u8>) -> Parsed<Seq<ModelView>> {
    let parts = split_parts(Delim::Model, s, 0, s.len() as int);
    if parts.len() == 0 || parts[0].1 <= parts[0].0 {
        Parsed::Aborted
    } else {
        models_of(s, parts, 1)
    }
}

pub open spec fn models_view(v: Seq<Model>) -> Seq<ModelView> {
    v.map_values(|m: Model| model_view(m))
}

/// Reads the model of `s[lo..hi]` (see `spec_model`).
fn parse_model(text: &str, s: &[u8], lo: usize, hi: usize) -> (r: Parsed<Model>)
    requires
        s@ == text.spec_bytes(),
        lo <= hi <= s@.len(),
        cut_point(s@, lo as int),
        cut_point(s@, hi as int),
    ensures
        agrees(r, spec_model(s@, lo as int, hi as int), |m: Model| model_view(m)),
{
    let parts = split(Delim::Directive, s, lo, hi);
    let ghost pv = spans_view(parts@);
    proof {
        lemma_split_parts(Delim::Directive, s@, lo as int, hi as int);
        lemma_text_valid(text);
    }
    if parts.len() < 3 {
        return Parsed::Aborted;
    }
    assert forall|k: int| 0 <= k < pv.len() implies
        cut_point(s@, (#[trigger] pv[k]).0) && cut_point(s@, pv[k].1) && lo <= pv[k].0 <= pv[k].1 <= hi by {
        lemma_cut_inside(s@, lo as int, hi as int, pv[k].0);
        lemma_cut_inside(s@, lo as int, hi as int, pv[k].1);
    }
    let mut logic: Vec<LogicBlock> = Vec::new();
    let mut k: usize = 3;
    assert(logic.deep_view() =~= seq![]);
    assert(forall|bs: Seq<LogicBlockView>| seq![] + bs =~= bs);
    while k < parts.len()
        invariant
            3 <= k <= parts@.len(),
            pv == spans_view(parts@),
            pv == split_parts(Delim::Directive, s@, lo as int, hi as int),
            s@ == text.spec_bytes(),
            forall|i: int| 0 <= i < pv.len() ==>
                cut_point(s@, (#[trigger] pv[i]).0) && cut_point(s@, pv[i].1) && lo <= pv[i].0 <= pv[i].1 <= hi,
            hi <= s@.len(),
            luts_of(s@, pv, 3) == (match luts_of(s@, pv, k as int) {
                Parsed::Done(bs) => Parsed::Done(logic.deep_view() + bs),
                Parsed::Failed(e) => Parsed::Failed(e),
                Parsed::Aborted => Parsed::Aborted,
            }),
        decreases parts@.len() - k,
    {
        let (a, b) = parts[k];
        assert(pv[k as int] == (a as int, b as int));
        let ghost before = logic.deep_view();
        match parse_lut(text, s, a, b) {
            Parsed::Done(lb) => {
                logic.push(lb);
                proof {
                    assert(logic.deep_view() =~= before.push(lb.deep_view()));
                    assert forall|bs: Seq<LogicBlockView>| before + (seq![lb.deep_view()] + bs) =~= logic.deep_view() + bs by {}
                }
            },
            Parsed::Failed(e) => {
                assert(luts_of(s@, pv, k as int) == Parsed::<Seq<LogicBlockView>>::Failed(e));
                return Parsed::Failed(e);
            },
            Parsed::Aborted => {
                assert(luts_of(s@, pv, k as int) == Parsed::<Seq<LogicBlockView>>::Aborted);
                return Parsed::Aborted;
            },
        }
        k = k + 1;
    }
    assert(logic.deep_view() + seq![] =~= logic.deep_view());
    let name = substr(text, parts[0].0, parts[0].1);
    let mut inputs: Vec<String> = Vec::new();
    assert(strings_view(inputs@) =~= seq![]);
    push_texts(text, s, Delim::List, parts[1].0, parts[1].1, &mut inputs);
    let mut outputs: Vec<String> = Vec::new();
    assert(strings_view(outputs@) =~= seq![]);
    push_texts(text, s, Delim::List, parts[2].0, parts[2].1, &mut outputs);
    let latched: Vec<String> = Vec::new();
    assert(strings_view(latched@) =~= seq![]);
    proof {
        assert(seq![] + texts(s@, split_parts(Delim::List, s@, pv[1].0, pv[1].1)) =~= texts(s@, split_parts(Delim::List, s@, pv[1].0, pv[1].1)));
        assert(seq![] + texts(s@, split_parts(Delim::List, s@, pv[2].0, pv[2].1)) =~= texts(s@, split_parts(Delim::List, s@, pv[2].0, pv[2].1)));
    }
    Parsed::Done(Model { name, inputs, outputs, latched, logic })
}

/// Reads a `.blif` file (see `spec_blif_file`); an input that the tool does
/// not handle gives `Parsed::Aborted`.
pub fn read_blif_file(text: &str) -> (r: Parsed<Vec<Model>>)
    ensures
        agrees(r, spec_blif_file(text.spec_bytes()), |v: Vec<Model>| models_view(v@)),
{
    let s = text.as_bytes();
    let n = s.len();
    let parts = split(Delim::Model, s, 0, n);
    let ghost pv = spans_view(parts@);
    proof {
        lemma_split_parts(Delim::Model, s@, 0, n as int);
        lemma_text_valid(text);
        vstd::utf8::is_char_boundary_start_end_of_seq(s@);
    }
    if parts.len() == 0 {
        return Parsed::Aborted;
    }
    assert(pv[0] == (parts@[0].0 as int, parts@[0].1 as int));
    if parts[0].1 <= parts[0].0 {
        return Parsed::Aborted;
    }
    assert(cut_point(s@, 0));
    assert(cut_point(s@, n as int));
    assert forall|k: int| 0 <= k < pv.len() implies
        cut_point(s@, (#[trigger] pv[k]).0) && cut_point(s@, pv[k].1) && pv[k].0 <= pv[k].1 <= n by {
        lemma_cut_inside(s@, 0, n as int, pv[k].0);
        lemma_cut_inside(s@, 0, n as int, pv[k].1);
    }
    let mut models: Vec<Model> = Vec::new();
    let mut k: usize = 1;
    assert(models_view(models@) =~= seq![]);
    assert(forall|ms: Seq<ModelView>| seq![] + ms =~= ms);
    while k < parts.len()
        invariant
            1 <= k <= parts@.len(),
            pv == spans_view(parts@),
            pv == split_parts(Delim::Model, s@, 0, n as int),
            pv.len() > 0,
            pv[0].1 > pv[0].0,
            s@ == text.spec_bytes(),
            n == s@.len(),
            forall|i: int| 0 <= i < pv.len() ==>
                cut_point(s@, (#[trigger] pv[i]).0) && cut_point(s@, pv[i].1) && pv[i].0 <= pv[i].1 <= n,
            models_of(s@, pv, 1) == (match models_of(s@, pv, k as int) {
                Parsed::Done(ms) => Parsed::Done(models_view(models@) + ms),
                Parsed::Failed(e) => Parsed::Failed(e),
                Parsed::Aborted => Parsed::Aborted,
            }),
        decreases parts@.len() - k,
    {
        let (a, b) = parts[k];
        assert(pv[k as int] == (a as int, b as int));
        let ghost before = models_view(models@);
        match parse_model(text, s, a, b) {
            Parsed::Done(m) => {
                let ghost mv = model_view(m);
                models.push(m);
                proof {
                    assert(models_view(models@) =~= before.push(mv));
                    assert forall|ms: Seq<ModelView>| before + (seq![mv] + ms) =~= models_view(models@) + ms by {}
                }
            },
            Parsed::Failed(e) => {
                assert(models_of(s@, pv, k as int) == Parsed::<Seq<ModelView>>::Failed(e));
                return Parsed::Failed(e);
            },
            Parsed::Aborted => {
                assert(models_of(s@, pv, k as int) == Parsed::<Seq<ModelView>>::Aborted);
                return Parsed::Aborted;
            },
        }
        k = k + 1;
    }
    assert(models_view(models@) + seq![] =~= models_view(models@));
    Parsed::Done(models)
}

/// Reads the models of a `.blif` file (see `spec_blif_file`).
pub fn parse_blif_file(text: &str) -> (r: Result<Vec<Model>, ParseError>)
    requires
        !(spec_blif_file(text.spec_bytes()) is Aborted),
    ensures
        crate::parse::result_agrees(r, spec_blif_file(text.spec_bytes()), |v: Vec<Model>| models_view(v@)),
{
    match read_blif_file(text) {
        Parsed::Done(v) => Ok(v),
        Parsed::Failed(e) => Err(e),
        Parsed::Aborted => Err(ParseError::MalformedNode),
    }
}

} // verus!
