//! Byte-level scanning of the text files that VPR and ABC write: character
//! classes, runs, literal search, decimal numbers, lines and the cutting of
//! names out of a text.
use vstd::prelude::*;
use vstd::utf8::*;
use vstd::string::*;

verus! {

/// The classes of bytes that the file grammars are written in.
#[derive(Clone, Copy, Debug, PartialEq, Eq, Structural)]
pub enum CharClass {
    /// A space or a tab.
    Blank,
    /// An ASCII white-space byte: tab, line feed, vertical tab, form feed,
    /// carriage return or space.
    Space,
    /// An ASCII decimal digit.
    Digit,
    /// A visible ASCII character (`!` to `~`).
    Graph,
    /// An ASCII letter, digit or underscore.
    Word,
    /// An ASCII letter.
    Alpha,
}

pub open spec fn in_class(c: CharClass, b: u8) -> bool {
    match c {
        CharClass::Blank => b == 32 || b == 9,
        CharClass::Space => b == 32 || (9 <= b && b <= 13),
        CharClass::Digit => 48 <= b && b <= 57,
        CharClass::Graph => 33 <= b && b <= 126,
        CharClass::Word => (48 <= b && b <= 57) || (65 <= b && b <= 90) || (97 <= b && b <= 122) || b == 95,
        CharClass::Alpha => (65 <= b && b <= 90) || (97 <= b && b <= 122),
    }
}

/// Whether `b` is in the class `c`.
pub fn is_in(c: CharClass, b: u8) -> (r: bool)
    ensures r == in_class(c, b),
{
    match c {
        CharClass::Blank => b == 32 || b == 9,
        CharClass::Space => b == 32 || (9 <= b && b <= 13),
        CharClass::Digit => 48 <= b && b <= 57,
        CharClass::Graph => 33 <= b && b <= 126,
        CharClass::Word => (48 <= b && b <= 57) || (65 <= b && b <= 90) || (97 <= b && b <= 122) || b == 95,
        CharClass::Alpha => (65 <= b && b <= 90) || (97 <= b && b <= 122),
    }
}

/// The end of the longest run of bytes of class `c` that starts at `i` and
/// stays below `hi`.
pub open spec fn run_end(s: Seq<u8>, i: int, hi: int, c: CharClass) -> int
    decreases hi - i,
{
    if 0 <= i < hi && i < s.len() && in_class(c, s[i]) {
        run_end(s, i + 1, hi, c)
    } else {
        i
    }
}

pub proof fn lemma_run_end(s: Seq<u8>, i: int, hi: int, c: CharClass)
    requires
        0 <= i <= hi <= s.len(),
    ensures
        i <= run_end(s, i, hi, c) <= hi,
        forall|k: int| i <= k < run_end(s, i, hi, c) ==> in_class(c, #[trigger] s[k]),
        run_end(s, i, hi, c) < hi ==> !in_class(c, s[run_end(s, i, hi, c)]),
    decreases hi - i,
{
    if i < hi && in_class(c, s[i]) {
        lemma_run_end(s, i + 1, hi, c);
    }
}

/// The end of the run of class `c` from `i` (see `run_end`).
pub fn skip_run(s: &[u8], i: usize, hi: usize, c: CharClass) -> (r: usize)
    requires
        i <= hi <= s@.len(),
    ensures
        r == run_end(s@, i as int, hi as int, c),
        i <= r <= hi,
{
    proof { lemma_run_end(s@, i as int, hi as int, c); }
    let mut j = i;
    while j < hi && is_in(c, s[j])
        invariant
            i <= j <= hi <= s@.len(),
            run_end(s@, j as int, hi as int, c) == run_end(s@, i as int, hi as int, c),
        decreases hi - j,
    {
        j = j + 1;
    }
    j
}

/// Whether the literal `pat` stands at `i` and ends at or before `hi`.
pub open spec fn lit_at(s: Seq<u8>, i: int, hi: int, pat: Seq<u8>) -> bool {
    0 <= i && i + pat.len() <= hi && hi <= s.len() && s.subrange(i, i + pat.len()) == pat
}

/// Whether the literal `lit` stands at `i` and ends at or before `hi`.
pub fn matches_at(s: &[u8], i: usize, hi: usize, lit: &[u8]) -> (r: bool)
    requires
        hi <= s@.len(),
    ensures
        r == lit_at(s@, i as int, hi as int, lit@),
{
    if i > hi || lit.len() > hi - i {
        return false;
    }
    let mut k: usize = 0;
    while k < lit.len()
        invariant
            k <= lit@.len(),
            i + lit@.len() <= hi <= s@.len(),
            forall|j: int| 0 <= j < k ==> s@[i + j] == lit@[j],
        decreases lit@.len() - k,
    {
        if s[i + k] != lit[k] {
            assert(s@.subrange(i as int, i + lit@.len())[k as int] != lit@[k as int]);
            return false;
        }
        k = k + 1;
    }
    assert(s@.subrange(i as int, i + lit@.len()) =~= lit@);
    true
}

/// The first position at or after `i` where `pat` stands and ends at or
/// before `hi`.
pub open spec fn find_lit(s: Seq<u8>, i: int, hi: int, pat: Seq<u8>) -> Option<int>
    decreases hi + 1 - i,
{
    if i < 0 || i + pat.len() > hi {
        None
    } else if lit_at(s, i, hi, pat) {
        Some(i)
    } else {
        find_lit(s, i + 1, hi, pat)
    }
}

pub proof fn lemma_find_lit(s: Seq<u8>, i: int, hi: int, pat: Seq<u8>)
    requires
        0 <= i,
        hi <= s.len(),
    ensures
        match find_lit(s, i, hi, pat) {
            Some(p) => i <= p && p + pat.len() <= hi && lit_at(s, p, hi, pat)
                && forall|q: int| i <= q < p ==> !lit_at(s, q, hi, pat),
            None => forall|q: int| i <= q ==> !lit_at(s, q, hi, pat),
        },
    decreases hi + 1 - i,
{
    if i + pat.len() > hi {
    } else if lit_at(s, i, hi, pat) {
    } else {
        lemma_find_lit(s, i + 1, hi, pat);
    }
}

/// The first position at or after `i` where `lit` stands (see `find_lit`).
pub fn find(s: &[u8], i: usize, hi: usize, lit: &[u8]) -> (r: Option<usize>)
    requires
        hi <= s@.len(),
        lit@.len() > 0,
    ensures
        match r {
            Some(p) => find_lit(s@, i as int, hi as int, lit@) == Some(p as int),
            None => find_lit(s@, i as int, hi as int, lit@) is None,
        },
{
    let mut p = i;
    while p <= hi && lit.len() <= hi - p
        invariant
            i <= p,
            hi <= s@.len(),
            lit@.len() > 0,
            find_lit(s@, p as int, hi as int, lit@) == find_lit(s@, i as int, hi as int, lit@),
        decreases hi + 1 - p,
    {
        if matches_at(s, p, hi, lit) {
            return Some(p);
        }
        p = p + 1;
    }
    None
}

/// The value of the decimal digits `s[a..b]`.
pub open spec fn decimal(s: Seq<u8>, a: int, b: int) -> nat
    decreases b - a,
{
    if b <= a {
        0
    } else {
        decimal(s, a, b - 1) * 10 + (s[b - 1] - 48) as nat
    }
}

/// All of `s[a..b]` is of class `c`.
pub open spec fn all_in(s: Seq<u8>, a: int, b: int, c: CharClass) -> bool {
    forall|k: int| a <= k < b ==> in_class(c, #[trigger] s[k])
}

proof fn lemma_decimal_grows(s: Seq<u8>, a: int, b: int, c: int)
    requires
        a <= c <= b,
        0 <= a,
        b <= s.len(),
        all_in(s, a, b, CharClass::Digit),
    ensures
        decimal(s, a, c) <= decimal(s, a, b),
    decreases b - c,
{
    if c < b {
        lemma_decimal_grows(s, a, b - 1, c);
    }
}

/// The value of the digits `s[a..b]` if it fits in a `u32`.
pub fn parse_u32(s: &[u8], a: usize, b: usize) -> (r: Option<u32>)
    requires
        a <= b <= s@.len(),
        all_in(s@, a as int, b as int, CharClass::Digit),
    ensures
        r == (if decimal(s@, a as int, b as int) <= u32::MAX { Some(decimal(s@, a as int, b as int) as u32) } else { None }),
{
    let mut v: u32 = 0;
    let mut k = a;
    while k < b
        invariant
            a <= k <= b <= s@.len(),
            all_in(s@, a as int, b as int, CharClass::Digit),
            v == decimal(s@, a as int, k as int),
        decreases b - k,
    {
        let d = (s[k] - 48) as u32;
        assert(in_class(CharClass::Digit, s@[k as int]));
        if v > 429496729 || (v == 429496729 && d > 5) {
            proof { lemma_decimal_grows(s@, a as int, b as int, k + 1); }
            return None;
        }
        v = v * 10 + d;
        k = k + 1;
    }
    Some(v)
}

/// The value of the digits `s[a..b]` if it fits in a `u16`.
pub fn parse_u16(s: &[u8], a: usize, b: usize) -> (r: Option<u16>)
    requires
        a <= b <= s@.len(),
        all_in(s@, a as int, b as int, CharClass::Digit),
    ensures
        r == (if decimal(s@, a as int, b as int) <= u16::MAX { Some(decimal(s@, a as int, b as int) as u16) } else { None }),
{
    match parse_u32(s, a, b) {
        Some(v) => if v <= 65535 { Some(v as u16) } else { None },
        None => None,
    }
}

/// The lines of `s[lo..hi]` as spans: cut at each line feed, with the
/// carriage return of a `"\r\n"` ending left out and the last line kept
/// when it is not empty.
pub open spec fn line_spans(s: Seq<u8>, lo: int, hi: int) -> Seq<(int, int)>
    decreases hi - lo,
{
    if lo < 0 || lo >= hi {
        seq![]
    } else {
        match find_lit(s, lo, hi, seq![10u8]) {
            None => seq![(lo, hi)],
            Some(q) => {
                if q < lo || q >= hi {
                    seq![]
                } else {
                    seq![(lo, if q > lo && s[q - 1] == 13 { q - 1 } else { q })] + line_spans(s, q + 1, hi)
                }
            },
        }
    }
}

pub open spec fn spans_view(v: Seq<(usize, usize)>) -> Seq<(int, int)> {
    v.map_values(|p: (usize, usize)| (p.0 as int, p.1 as int))
}

pub proof fn lemma_line_spans(s: Seq<u8>, lo: int, hi: int)
    requires
        0 <= lo,
        hi <= s.len(),
    ensures
        forall|k: int| 0 <= k < line_spans(s, lo, hi).len() ==> {
            let sp = #[trigger] line_spans(s, lo, hi)[k];
            &&& lo <= sp.0 <= sp.1 <= hi
            &&& (sp.1 == hi || s[sp.1] == 10 || s[sp.1] == 13)
            &&& (sp.0 == lo || s[sp.0 - 1] == 10)
        },
        lo < hi ==> line_spans(s, lo, hi).len() >= 1,
    decreases hi - lo,
{
    if lo < hi {
        lemma_find_lit(s, lo, hi, seq![10u8]);
        match find_lit(s, lo, hi, seq![10u8]) {
            None => {},
            Some(q) => {
                assert(s.subrange(q, q + 1) == seq![10u8]);
                assert(s[q] == s.subrange(q, q + 1)[0]);
                lemma_line_spans(s, q + 1, hi);
                let rest = line_spans(s, q + 1, hi);
                assert forall|k: int| 0 <= k < line_spans(s, lo, hi).len() implies {
                    let sp = #[trigger] line_spans(s, lo, hi)[k];
                    &&& lo <= sp.0 <= sp.1 <= hi
                    &&& (sp.1 == hi || s[sp.1] == 10 || s[sp.1] == 13)
                    &&& (sp.0 == lo || s[sp.0 - 1] == 10)
                } by {
                    if k > 0 {
                        assert(line_spans(s, lo, hi)[k] == rest[k - 1]);
                    }
                }
            },
        }
    }
}

/// The lines of `s[lo..hi]` (see `line_spans`).
pub fn lines(s: &[u8], lo: usize, hi: usize) -> (r: Vec<(usize, usize)>)
    requires
        lo <= hi <= s@.len(),
    ensures
        spans_view(r@) == line_spans(s@, lo as int, hi as int),
{
    let mut r: Vec<(usize, usize)> = Vec::new();
    let mut p = lo;
    let nl: [u8; 1] = [10u8];
    assert(nl@ =~= seq![10u8]);
    while p < hi
        invariant
            lo <= p <= hi <= s@.len(),
            nl@ == seq![10u8],
            spans_view(r@) + line_spans(s@, p as int, hi as int) == line_spans(s@, lo as int, hi as int),
        decreases hi - p,
    {
        let ghost old_r = r@;
        proof { lemma_find_lit(s@, p as int, hi as int, seq![10u8]); }
        match find(s, p, hi, &nl) {
            None => {
                r.push((p, hi));
                proof {
                    assert(spans_view(r@) =~= spans_view(old_r).push((p as int, hi as int)));
                    assert(line_spans(s@, hi as int, hi as int) =~= seq![]);
                    assert(spans_view(r@) + line_spans(s@, hi as int, hi as int) =~= spans_view(old_r) + line_spans(s@, p as int, hi as int));
                }
                p = hi;
            },
            Some(q) => {
                let e = if q > p && s[q - 1] == 13 { q - 1 } else { q };
                r.push((p, e));
                proof {
                    assert(spans_view(r@) =~= spans_view(old_r).push((p as int, e as int)));
                    assert(spans_view(r@) + line_spans(s@, q + 1, hi as int) =~= spans_view(old_r) + line_spans(s@, p as int, hi as int));
                }
                p = q + 1;
            },
        }
    }
    proof {
        assert(line_spans(s@, p as int, hi as int) =~= seq![]);
        assert(spans_view(r@) + seq![] =~= spans_view(r@));
    }
    r
}

/// After an ASCII byte of a valid UTF-8 text comes the first byte of a
/// character.
pub proof fn lemma_after_ascii(bs: Seq<u8>, i: int)
    requires
        valid_utf8(bs),
        0 <= i,
        i + 1 < bs.len(),
        bs[i] <= 127,
    ensures
        !is_continuation_byte(bs[i + 1]),
    decreases bs.len(),
{
    reveal_with_fuel(valid_utf8, 2);
    let l = length_of_first_scalar(bs);
    let rest = pop_first_scalar(bs);
    assert(valid_first_scalar(bs));
    assert(0 < l <= bs.len());
    assert(valid_utf8(rest));
    if i == 0 {
        assert(l == 1);
        assert(rest[0] == bs[1]);
    } else if i < l {
        assert(is_continuation_byte(bs[i]));
    } else {
        assert(rest[i - l] == bs[i]);
        assert(rest[i - l + 1] == bs[i + 1]);
        lemma_after_ascii(rest, i - l);
    }
}

/// The bytes of a text are valid UTF-8.
pub proof fn lemma_text_valid(text: &str)
    ensures
        valid_utf8(text.spec_bytes()),
{
    encode_utf8_valid_utf8(text@);
}

/// Whether a name may be cut out of the text at byte offset `a`: it is the
/// end of the text or the first byte of a character.
pub open spec fn cut_point(bs: Seq<u8>, a: int) -> bool {
    0 <= a <= bs.len() && (a == bs.len() || !is_continuation_byte(bs[a]))
}

/// A position inside a part `lo..hi` of a text, both ends of which are cut
/// points, that is the start of the part or follows an ASCII byte, is a
/// cut point; so is one that is the end of the part or holds an ASCII byte.
pub proof fn lemma_cut_inside(bs: Seq<u8>, lo: int, hi: int, a: int)
    requires
        valid_utf8(bs),
        cut_point(bs, lo),
        cut_point(bs, hi),
        lo <= a <= hi,
        (a == lo || bs[a - 1] <= 127) || (a == hi || bs[a] <= 127),
    ensures
        cut_point(bs, a),
{
    if a != lo && a != hi && a < bs.len() && bs[a - 1] <= 127 {
        lemma_after_ascii(bs, a - 1);
    }
}

/// The text of the bytes `a..b` of `text`.
pub fn substr(text: &str, a: usize, b: usize) -> (r: String)
    requires
        a <= b,
        cut_point(text.spec_bytes(), a as int),
        cut_point(text.spec_bytes(), b as int),
    ensures
        r@ == decode_utf8(text.spec_bytes().subrange(a as int, b as int)),
{
    let ghost bs = text.spec_bytes();
    proof {
        lemma_text_valid(text);
        is_char_boundary_start_end_of_seq(bs);
        if a < bs.len() {
            is_char_boundary_iff_not_is_continuation_byte(bs, a as int);
        }
    }
    let (_, rest) = text.split_at(a);
    proof {
        valid_utf8_split(bs, a as int);
        let rb = rest.spec_bytes();
        assert(rb =~= bs.subrange(a as int, bs.len() as int));
        is_char_boundary_start_end_of_seq(rb);
        if b - a < rb.len() {
            assert(rb[b - a] == bs[b as int]);
            is_char_boundary_iff_not_is_continuation_byte(rb, b - a);
        }
    }
    let (mid, _) = rest.split_at(b - a);
    proof {
        assert(mid.spec_bytes() =~= bs.subrange(a as int, b as int));
        encode_utf8_decode_utf8(mid@);
    }
    mid.to_owned()
}

} // verus!
