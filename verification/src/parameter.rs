//! Design parameters: reading `name = value` definitions, looking them up,
//! taking the delays of the timing model from them, and writing the
//! critical path delays back as parameters.
use vstd::prelude::*;
use vstd::utf8::*;
use vstd::string::*;
use crate::text::{CharClass, in_class, is_in, run_end, lemma_run_end, skip_run, lit_at, matches_at,
    decimal, all_in, parse_u32, line_spans, spans_view, lemma_line_spans, lines, lemma_after_ascii,
    lemma_text_valid, cut_point, substr};
use crate::parse::ParseError;
use crate::config::Config;
use crate::output::{decimal_text, push_decimal};

verus! {

/// The value of the last definition of `key` in `store`, as a map that is
/// filled in order keeps it.
pub open spec fn spec_lookup(store: Seq<(String, String)>, key: Seq<char>) -> Option<Seq<char>>
    decreases store.len(),
{
    if store.len() == 0 {
        None
    } else if store.last().0@ == key {
        Some(store.last().1@)
    } else {
        spec_lookup(store.drop_last(), key)
    }
}

/// The value of the parameter `key` (see `spec_lookup`).
pub fn lookup_parameter<'a>(store: &'a Vec<(String, String)>, key: &str) -> (r: Option<&'a String>)
    ensures
        match r {
            Some(v) => spec_lookup(store@, key@) == Some(v@),
            None => spec_lookup(store@, key@) is None,
        },
{
    let k = key.to_owned();
    let mut i = store.len();
    assert(store@.subrange(0, i as int) =~= store@);
    while i > 0
        invariant
            i <= store@.len(),
            k@ == key@,
            spec_lookup(store@, key@) == spec_lookup(store@.subrange(0, i as int), key@),
        decreases i,
    {
        assert(store@.subrange(0, i as int).drop_last() =~= store@.subrange(0, i - 1));
        if store[i - 1].0 == k {
            return Some(&store[i - 1].1);
        }
        i = i - 1;
    }
    None
}

/// The number that the text `v` spells, as `str::parse::<u32>` reads it:
/// an optional `+` and at least one decimal digit, the value at most
/// `u32::MAX`.
pub open spec fn spec_u32_text(v: Seq<u8>) -> Option<u32> {
    let a: int = if v.len() > 0 && v[0] == 43 { 1 } else { 0 };
    if a < v.len() && all_in(v, a, v.len() as int, CharClass::Digit) && decimal(v, a, v.len() as int) <= u32::MAX {
        Some(decimal(v, a, v.len() as int) as u32)
    } else {
        None
    }
}

/// The number that `v` spells (see `spec_u32_text`).
pub fn u32_of_text(v: &String) -> (r: Option<u32>)
    ensures
        r == spec_u32_text(encode_utf8(v@)),
{
    let s = v.as_str().as_bytes();
    let n = s.len();
    let a: usize = if n > 0 && s[0] == 43 { 1 } else { 0 };
    if a >= n {
        return None;
    }
    let e = skip_run(s, a, n, CharClass::Digit);
    proof { lemma_run_end(s@, a as int, n as int, CharClass::Digit); }
    if e < n {
        assert(!all_in(s@, a as int, n as int, CharClass::Digit));
        return None;
    }
    parse_u32(s, a, n)
}

pub open spec fn name_pad_exit() -> Seq<char> { "FPGA_DELAY_PAD_EXIT"@ }
pub open spec fn name_ble_exit() -> Seq<char> { "FPGA_DELAY_BLE_EXIT"@ }
pub open spec fn name_ble_enter() -> Seq<char> { "FPGA_DELAY_BLE_ENTER"@ }
pub open spec fn name_pad_enter() -> Seq<char> { "FPGA_DELAY_PAD_ENTER"@ }
pub open spec fn name_trackswitch() -> Seq<char> { "FPGA_DELAY_TRACKSWITCH"@ }

/// The delay of the parameter `name`: `None` when it is not given,
/// `Some(None)` when its value is not a number.
pub open spec fn spec_delay(store: Seq<(String, String)>, name: Seq<char>) -> Option<Option<u32>> {
    match spec_lookup(store, name) {
        None => None,
        Some(v) => Some(spec_u32_text(encode_utf8(v))),
    }
}

/// The delay of the parameter `name` (see `spec_delay`) or the error for it.
fn delay_parameter(store: &Vec<(String, String)>, name: &str) -> (r: Result<u32, ParseError>)
    ensures
        match spec_delay(store@, name@) {
            None => r == Err::<u32, ParseError>(ParseError::MissingParameter),
            Some(None) => r == Err::<u32, ParseError>(ParseError::MalformedParameter),
            Some(Some(d)) => r == Ok::<u32, ParseError>(d),
        },
{
    match lookup_parameter(store, name) {
        None => Err(ParseError::MissingParameter),
        Some(v) => match u32_of_text(v) {
            None => Err(ParseError::MalformedParameter),
            Some(d) => Ok(d),
        },
    }
}

/// One delay as a result: the error for a parameter that is missing or not
/// a number.
pub open spec fn delay_result(store: Seq<(String, String)>, name: Seq<char>) -> Result<u32, ParseError> {
    match spec_delay(store, name) {
        None => Err(ParseError::MissingParameter),
        Some(None) => Err(ParseError::MalformedParameter),
        Some(Some(d)) => Ok(d),
    }
}

/// The five delays of the timing model, read from the parameters
/// `FPGA_DELAY_PAD_EXIT`, `FPGA_DELAY_BLE_EXIT`, `FPGA_DELAY_BLE_ENTER`,
/// `FPGA_DELAY_PAD_ENTER` and `FPGA_DELAY_TRACKSWITCH`, in this order; the
/// first one that is missing or not a number gives its error.
pub open spec fn spec_delays(store: Seq<(String, String)>) -> Result<(u32, u32, u32, u32, u32), ParseError> {
    match delay_result(store, name_pad_exit()) {
        Err(e) => Err(e),
        Ok(a) => match delay_result(store, name_ble_exit()) {
            Err(e) => Err(e),
            Ok(b) => match delay_result(store, name_ble_enter()) {
                Err(e) => Err(e),
                Ok(c) => match delay_result(store, name_pad_enter()) {
                    Err(e) => Err(e),
                    Ok(d) => match delay_result(store, name_trackswitch()) {
                        Err(e) => Err(e),
                        Ok(x) => Ok((a, b, c, d, x)),
                    },
                },
            },
        },
    }
}

/// Takes the delays of the timing model from the parameters of `cfg` (see
/// `spec_delays`). On an error `cfg` keeps its delays; otherwise they are
/// all set. Nothing else changes.
pub fn apply_delay_parameters(cfg: &mut Config) -> (r: Result<(), ParseError>)
    ensures
        match spec_delays(old(cfg).parameter_store@) {
            Ok(ds) => {
                &&& r is Ok
                &&& *final(cfg) == (Config {
                    fpga_delay_pad_exit: ds.0,
                    fpga_delay_ble_exit: ds.1,
                    fpga_delay_ble_enter: ds.2,
                    fpga_delay_pad_enter: ds.3,
                    fpga_delay_trackswitch: ds.4,
                    ..*old(cfg)
                })
            },
            Err(e) => r == Err::<(), ParseError>(e) && *final(cfg) == *old(cfg),
        },
{
    proof {
        reveal_strlit("FPGA_DELAY_PAD_EXIT");
        reveal_strlit("FPGA_DELAY_BLE_EXIT");
        reveal_strlit("FPGA_DELAY_BLE_ENTER");
        reveal_strlit("FPGA_DELAY_PAD_ENTER");
        reveal_strlit("FPGA_DELAY_TRACKSWITCH");
    }
    let a = match delay_parameter(&cfg.parameter_store, "FPGA_DELAY_PAD_EXIT") { Err(e) => { return Err(e); }, Ok(v) => v };
    let b = match delay_parameter(&cfg.parameter_store, "FPGA_DELAY_BLE_EXIT") { Err(e) => { return Err(e); }, Ok(v) => v };
    let c = match delay_parameter(&cfg.parameter_store, "FPGA_DELAY_BLE_ENTER") { Err(e) => { return Err(e); }, Ok(v) => v };
    let d = match delay_parameter(&cfg.parameter_store, "FPGA_DELAY_PAD_ENTER") { Err(e) => { return Err(e); }, Ok(v) => v };
    let x = match delay_parameter(&cfg.parameter_store, "FPGA_DELAY_TRACKSWITCH") { Err(e) => { return Err(e); }, Ok(v) => v };
    cfg.fpga_delay_pad_exit = a;
    cfg.fpga_delay_ble_exit = b;
    cfg.fpga_delay_ble_enter = c;
    cfg.fpga_delay_pad_enter = d;
    cfg.fpga_delay_trackswitch = x;
    Ok(())
}

pub open spec fn default_sync_name() -> Seq<char> { "GLOBAL_CRIT_PATH_DELAY"@ }
pub open spec fn default_async_name() -> Seq<char> { "LOCAL_CRIT_PATH_DELAY"@ }

/// The text of the delay parameters: `parameter G = g;` and
/// `parameter L = l;`, each on a line, where `G` is the parameter
/// `SYNC_DELAY_PARAM_NAME` (by default `GLOBAL_CRIT_PATH_DELAY`), `L` the
/// parameter `ASYNC_DELAY_PARAM_NAME` (by default `LOCAL_CRIT_PATH_DELAY`),
/// `g` the global and `l` the local critical path delay.
pub open spec fn spec_write_parameters(store: Seq<(String, String)>, local: u32, global: u32) -> Seq<char> {
    let g = match spec_lookup(store, "SYNC_DELAY_PARAM_NAME"@) { Some(v) => v, None => default_sync_name() };
    let l = match spec_lookup(store, "ASYNC_DELAY_PARAM_NAME"@) { Some(v) => v, None => default_async_name() };
    "parameter "@ + g + " = "@ + decimal_text(global as nat) + ";\n"@
        + "parameter "@ + l + " = "@ + decimal_text(local as nat) + ";\n"@
}

/// The text of the delay parameters (see `spec_write_parameters`).
pub fn write_parameters(store: &Vec<(String, String)>, local: u32, global: u32) -> (r: String)
    ensures
        r@ == spec_write_parameters(store@, local, global),
{
    let g = match lookup_parameter(store, "SYNC_DELAY_PARAM_NAME") {
        Some(v) => v.clone(),
        None => "GLOBAL_CRIT_PATH_DELAY".to_owned(),
    };
    let l = match lookup_parameter(store, "ASYNC_DELAY_PARAM_NAME") {
        Some(v) => v.clone(),
        None => "LOCAL_CRIT_PATH_DELAY".to_owned(),
    };
    let mut out = String::new();
    out.append("parameter ");
    out.append(g.as_str());
    out.append(" = ");
    push_decimal(&mut out, global);
    out.append(";\n");
    out.append("parameter ");
    out.append(l.as_str());
    out.append(" = ");
    push_decimal(&mut out, local);
    out.append(";\n");
    proof {
        assert(out@ =~= spec_write_parameters(store@, local, global));
    }
    out
}

pub open spec fn lit_parameter() -> Seq<u8> { seq![112u8, 97, 114, 97, 109, 101, 116, 101, 114] }

/// The last position in `lo..hi` that does not hold a `;`.
pub open spec fn last_not_semicolon(s: Seq<u8>, lo: int, hi: int) -> Option<int>
    decreases hi - lo,
{
    if hi <= lo || hi > s.len() {
        None
    } else if s[hi - 1] != 59 {
        Some(hi - 1)
    } else {
        last_not_semicolon(s, lo, hi - 1)
    }
}

/// The end of a value at `v0`: the longest run of visible characters that
/// is followed by one character other than `;`, which belongs to the value.
pub open spec fn value_end(s: Seq<u8>, v0: int, hi: int) -> Option<int> {
    let g = run_end(s, v0, hi, CharClass::Graph);
    if g <= v0 {
        None
    } else if g < hi {
        Some(g + length_of_first_scalar(s.subrange(g, hi)))
    } else {
        match last_not_semicolon(s, v0 + 1, g) {
            Some(m) => Some(m + 1),
            None => None,
        }
    }
}

/// After a name that ends at `e`: white space, `=`, white space and a
/// value; the span of the value.
pub open spec fn rest_at(s: Seq<u8>, e: int, hi: int) -> Option<(int, int)> {
    let q = run_end(s, e, hi, CharClass::Space);
    if q < hi && s[q] == 61 {
        let v0 = run_end(s, q + 1, hi, CharClass::Space);
        match value_end(s, v0, hi) {
            Some(ve) => Some((v0, ve)),
            None => None,
        }
    } else {
        None
    }
}

/// The longest name `s[n0..e']` with `e' <= e` that a value follows.
pub open spec fn name_match(s: Seq<u8>, n0: int, e: int, hi: int) -> Option<((int, int), (int, int))>
    decreases e - n0,
{
    if e <= n0 {
        None
    } else {
        match rest_at(s, e, hi) {
            Some(v) => Some(((n0, e), v)),
            None => name_match(s, n0, e - 1, hi),
        }
    }
}

/// A definition at `p`: `parameter` and white space before the name if
/// that gives one, else the name right at `p`; the name is made of visible
/// characters (see `name_match`).
pub open spec fn param_at(s: Seq<u8>, p: int, hi: int) -> Option<((int, int), (int, int))> {
    let r = run_end(s, p + 9, hi, CharClass::Space);
    let with_word = if lit_at(s, p, hi, lit_parameter()) && r > p + 9 {
        name_match(s, r, run_end(s, r, hi, CharClass::Graph), hi)
    } else {
        None
    };
    match with_word {
        Some(m) => Some(m),
        None => name_match(s, p, run_end(s, p, hi, CharClass::Graph), hi),
    }
}

/// The first definition in `s[p..hi]`.
pub open spec fn find_param(s: Seq<u8>, p: int, hi: int) -> Option<((int, int), (int, int))>
    decreases hi - p,
{
    if p < 0 || p >= hi {
        None
    } else {
        match param_at(s, p, hi) {
            Some(m) => Some(m),
            None => find_param(s, p + 1, hi),
        }
    }
}

/// The name and the value of the first parameter definition in `s[lo..hi]`:
/// an optional `parameter` and white space, a name, `=` between optional
/// white space, and a value (see `value_end`); a `;` may follow.
pub open spec fn spec_parameter(s: Seq<u8>, lo: int, hi: int) -> Option<(Seq<char>, Seq<char>)> {
    match find_param(s, lo, hi) {
        Some(m) => Some((decode_utf8(s.subrange(m.0.0, m.0.1)), decode_utf8(s.subrange(m.1.0, m.1.1)))),
        None => None,
    }
}

/// The character that starts at an `i` that is a cut point ends at one.
proof fn lemma_next_char(bs: Seq<u8>, i: int)
    requires
        valid_utf8(bs),
        0 <= i < bs.len(),
        !is_continuation_byte(bs[i]),
    ensures
        1 <= length_of_first_scalar(bs.subrange(i, bs.len() as int)),
        i + length_of_first_scalar(bs.subrange(i, bs.len() as int)) <= bs.len(),
        cut_point(bs, i + length_of_first_scalar(bs.subrange(i, bs.len() as int))),
        forall|k: int| i < k < i + length_of_first_scalar(bs.subrange(i, bs.len() as int))
            ==> is_continuation_byte(#[trigger] bs[k]),
{
    is_char_boundary_iff_not_is_continuation_byte(bs, i);
    valid_utf8_split(bs, i);
    let rest = bs.subrange(i, bs.len() as int);
    reveal_with_fuel(valid_utf8, 2);
    assert(valid_first_scalar(rest));
    let l = length_of_first_scalar(rest);
    let pop = pop_first_scalar(rest);
    assert(valid_utf8(pop));
    if i + l < bs.len() {
        assert(pop[0] == bs[i + l]);
        assert(valid_first_scalar(pop));
    }
    assert(valid_leading_and_continuation_bytes_first_codepoint(rest));
    assert forall|k: int| i < k < i + l implies is_continuation_byte(#[trigger] bs[k]) by {
        assert(bs[k] == rest[k - i]);
    }
}

/// The byte length of the character whose first byte is `b`.
fn char_len(b: u8) -> (r: usize)
    ensures
        forall|t: Seq<u8>| t.len() > 0 && t[0] == b ==> r == #[trigger] length_of_first_scalar(t),
{
    if b <= 0x7f { 1 } else if 0xc0 <= b && b <= 0xdf { 2 } else if 0xe0 <= b && b <= 0xef { 3 } else { 4 }
}

/// The end of the value at `v0` (see `value_end`).
fn value_end_exec(s: &[u8], v0: usize, hi: usize) -> (r: Option<usize>)
    requires
        v0 <= hi <= s@.len(),
        valid_utf8(s@),
        cut_point(s@, hi as int),
    ensures
        match r {
            Some(ve) => value_end(s@, v0 as int, hi as int) == Some(ve as int) && v0 < ve <= hi
                && cut_point(s@, ve as int),
            None => value_end(s@, v0 as int, hi as int) is None,
        },
{
    let g = skip_run(s, v0, hi, CharClass::Graph);
    proof { lemma_run_end(s@, v0 as int, hi as int, CharClass::Graph); }
    if g <= v0 {
        return None;
    }
    if g < hi {
        let l = char_len(s[g]);
        proof {
            let t = s@.subrange(g as int, hi as int);
            assert(t[0] == s@[g as int]);
            assert(s@[g - 1] <= 127);
            lemma_after_ascii(s@, g - 1);
            lemma_next_char(s@, g as int);
            let t2 = s@.subrange(g as int, s@.len() as int);
            assert(t2[0] == s@[g as int]);
            assert(l == length_of_first_scalar(t2));
            if g + l > hi {
                assert(is_continuation_byte(s@[hi as int]));
            }
            assert(t =~= t2.subrange(0, hi - g));
            assert(t.len() > 0 && t[0] == s@[g as int]);
        }
        return Some(g + l);
    }
    let mut h = g;
    while h > v0 + 1
        invariant
            v0 + 1 <= h <= g == hi,
            g == run_end(s@, v0 as int, hi as int, CharClass::Graph),
            hi <= s@.len(),
            cut_point(s@, hi as int),
            all_in(s@, v0 as int, g as int, CharClass::Graph),
            last_not_semicolon(s@, v0 + 1, h as int) == last_not_semicolon(s@, v0 + 1, g as int),
        decreases h,
    {
        if s[h - 1] != 59 {
            assert(last_not_semicolon(s@, v0 + 1, h as int) == Some(h - 1));
            proof {
                if h < hi {
                    assert(in_class(CharClass::Graph, s@[h as int]));
                }
            }
            return Some(h);
        }
        h = h - 1;
    }
    None
}

/// What follows a name that ends at `e` (see `rest_at`).
fn rest_at_exec(s: &[u8], e: usize, hi: usize) -> (r: Option<(usize, usize)>)
    requires
        e <= hi <= s@.len(),
        valid_utf8(s@),
        cut_point(s@, hi as int),
    ensures
        match r {
            Some(v) => rest_at(s@, e as int, hi as int) == Some((v.0 as int, v.1 as int))
                && e < v.0 < v.1 <= hi && cut_point(s@, v.1 as int) && in_class(CharClass::Graph, s@[v.0 as int])
                && s@[e as int] <= 127,
            None => rest_at(s@, e as int, hi as int) is None,
        },
{
    let q = skip_run(s, e, hi, CharClass::Space);
    proof { lemma_run_end(s@, e as int, hi as int, CharClass::Space); }
    if q < hi && s[q] == 61 {
        let v0 = skip_run(s, q + 1, hi, CharClass::Space);
        match value_end_exec(s, v0, hi) {
            Some(ve) => {
                proof { lemma_run_end(s@, v0 as int, hi as int, CharClass::Graph); }
                Some((v0, ve))
            },
            None => None,
        }
    } else {
        None
    }
}

/// The longest name from `n0` that a value follows (see `name_match`).
fn name_match_exec(s: &[u8], n0: usize, e: usize, hi: usize) -> (r: Option<((usize, usize), (usize, usize))>)
    requires
        n0 <= e <= hi <= s@.len(),
        valid_utf8(s@),
        cut_point(s@, hi as int),
    ensures
        match r {
            Some(m) => name_match(s@, n0 as int, e as int, hi as int) == Some(((m.0.0 as int, m.0.1 as int), (m.1.0 as int, m.1.1 as int)))
                && n0 == m.0.0 < m.0.1 < m.1.0 < m.1.1 <= hi && cut_point(s@, m.1.1 as int)
                && in_class(CharClass::Graph, s@[m.1.0 as int]) && s@[m.0.1 as int] <= 127,
            None => name_match(s@, n0 as int, e as int, hi as int) is None,
        },
{
    let mut k = e;
    while k > n0
        invariant
            n0 <= k <= e <= hi <= s@.len(),
            valid_utf8(s@),
            cut_point(s@, hi as int),
            name_match(s@, n0 as int, k as int, hi as int) == name_match(s@, n0 as int, e as int, hi as int),
        decreases k,
    {
        match rest_at_exec(s, k, hi) {
            Some(v) => { return Some(((n0, k), v)); },
            None => {},
        }
        k = k - 1;
    }
    None
}

/// A definition at `p` (see `param_at`).
fn param_at_exec(s: &[u8], p: usize, hi: usize) -> (r: Option<((usize, usize), (usize, usize))>)
    requires
        p <= hi <= s@.len(),
        valid_utf8(s@),
        cut_point(s@, hi as int),
    ensures
        match r {
            Some(m) => param_at(s@, p as int, hi as int) == Some(((m.0.0 as int, m.0.1 as int), (m.1.0 as int, m.1.1 as int)))
                && p <= m.0.0 < m.0.1 < m.1.0 < m.1.1 <= hi && cut_point(s@, m.1.1 as int)
                && in_class(CharClass::Graph, s@[m.1.0 as int]) && s@[m.0.0 as int] <= 127
                && s@[m.0.1 as int] <= 127,
            None => param_at(s@, p as int, hi as int) is None,
        },
{
    let lit: [u8; 9] = [112u8, 97, 114, 97, 109, 101, 116, 101, 114];
    assert(lit@ =~= lit_parameter());
    let mut with_word: Option<((usize, usize), (usize, usize))> = None;
    if matches_at(s, p, hi, &lit) {
        let r = skip_run(s, p + 9, hi, CharClass::Space);
        if r > p + 9 {
            let e = skip_run(s, r, hi, CharClass::Graph);
            proof { lemma_run_end(s@, r as int, hi as int, CharClass::Graph); }
            with_word = name_match_exec(s, r, e, hi);
            proof {
                if with_word is Some {
                    assert(in_class(CharClass::Graph, s@[r as int]));
                }
            }
        }
    }
    match with_word {
        Some(m) => Some(m),
        None => {
            let e = skip_run(s, p, hi, CharClass::Graph);
            proof { lemma_run_end(s@, p as int, hi as int, CharClass::Graph); }
            let m = name_match_exec(s, p, e, hi);
            proof {
                if m is Some {
                    assert(in_class(CharClass::Graph, s@[p as int]));
                }
            }
            m
        },
    }
}

/// The name and the value of the first parameter definition in `s[lo..hi]`
/// of `text` (see `spec_parameter`).
fn parameter_in(text: &str, s: &[u8], lo: usize, hi: usize) -> (r: Option<(String, String)>)
    requires
        s@ == text.spec_bytes(),
        lo <= hi <= s@.len(),
        cut_point(s@, hi as int),
    ensures
        match r {
            Some(v) => spec_parameter(s@, lo as int, hi as int) == Some((v.0@, v.1@)),
            None => spec_parameter(s@, lo as int, hi as int) is None,
        },
{
    proof { lemma_text_valid(text); }
    let mut p = lo;
    while p < hi
        invariant
            lo <= p <= hi <= s@.len(),
            s@ == text.spec_bytes(),
            valid_utf8(s@),
            cut_point(s@, hi as int),
            find_param(s@, p as int, hi as int) == find_param(s@, lo as int, hi as int),
        decreases hi - p,
    {
        match param_at_exec(s, p, hi) {
            Some(m) => {
                let name = substr(text, m.0.0, m.0.1);
                let value = substr(text, m.1.0, m.1.1);
                return Some((name, value));
            },
            None => {},
        }
        p = p + 1;
    }
    None
}

/// The name and the value of the parameter that `arg` defines, if it
/// defines one (see `spec_parameter`).
pub fn parameter_of(arg: &str) -> (r: Option<(String, String)>)
    ensures
        match r {
            Some(v) => spec_parameter(arg.spec_bytes(), 0, arg.spec_bytes().len() as int) == Some((v.0@, v.1@)),
            None => spec_parameter(arg.spec_bytes(), 0, arg.spec_bytes().len() as int) is None,
        },
{
    let s = arg.as_bytes();
    parameter_in(arg, s, 0, s.len())
}

/// The parameters of the lines `ls[k..]`: each line must define one.
pub open spec fn spec_parameter_lines(s: Seq<u8>, ls: Seq<(int, int)>, k: int) -> Result<Seq<(Seq<char>, Seq<char>)>, ParseError>
    decreases ls.len() - k,
{
    if k < 0 || k >= ls.len() {
        Ok(seq![])
    } else {
        match spec_parameter(s, ls[k].0, ls[k].1) {
            None => Err(ParseError::MalformedParameter),
            Some(d) => match spec_parameter_lines(s, ls, k + 1) {
                Ok(ds) => Ok(seq![d] + ds),
                Err(e) => Err(e),
            },
        }
    }
}

pub open spec fn pairs_view(v: Seq<(String, String)>) -> Seq<(Seq<char>, Seq<char>)> {
    v.map_values(|d: (String, String)| (d.0@, d.1@))
}

/// The parameters of a parameter file: one definition on each of its lines
/// (see `spec_parameter`); a line that defines none is an error.
pub fn parameters_of_text(text: &str) -> (r: Result<Vec<(String, String)>, ParseError>)
    ensures
        match r {
            Ok(v) => spec_parameter_lines(text.spec_bytes(), line_spans(text.spec_bytes(), 0, text.spec_bytes().len() as int), 0) == Ok::<Seq<(Seq<char>, Seq<char>)>, ParseError>(pairs_view(v@)),
            Err(e) => spec_parameter_lines(text.spec_bytes(), line_spans(text.spec_bytes(), 0, text.spec_bytes().len() as int), 0) == Err::<Seq<(Seq<char>, Seq<char>)>, ParseError>(e),
        },
{
    let s = text.as_bytes();
    let n = s.len();
    let ls = lines(s, 0, n);
    let ghost lv = spans_view(ls@);
    proof {
        lemma_line_spans(s@, 0, n as int);
        lemma_text_valid(text);
    }
    let mut out: Vec<(String, String)> = Vec::new();
    let mut k: usize = 0;
    assert(pairs_view(out@) =~= seq![]);
    assert(forall|ds: Seq<(Seq<char>, Seq<char>)>| seq![] + ds =~= ds);
    while k < ls.len()
        invariant
            k <= ls@.len(),
            lv == spans_view(ls@),
            lv == line_spans(s@, 0, n as int),
            n == s@.len(),
            s@ == text.spec_bytes(),
            forall|i: int| 0 <= i < lv.len() ==> {
                let sp = #[trigger] lv[i];
                &&& 0 <= sp.0 <= sp.1 <= n
                &&& (sp.1 == n || s@[sp.1] == 10 || s@[sp.1] == 13)
            },
            spec_parameter_lines(s@, lv, 0) == (match spec_parameter_lines(s@, lv, k as int) {
                Ok(ds) => Ok(pairs_view(out@) + ds),
                Err(e) => Err(e),
            }),
        decreases ls@.len() - k,
    {
        let (a, b) = ls[k];
        assert(lv[k as int] == (a as int, b as int));
        assert(cut_point(s@, b as int));
        let ghost before = pairs_view(out@);
        match parameter_in(text, s, a, b) {
            None => {
                assert(spec_parameter_lines(s@, lv, k as int) == Err::<Seq<(Seq<char>, Seq<char>)>, ParseError>(ParseError::MalformedParameter));
                return Err(ParseError::MalformedParameter);
            },
            Some(d) => {
                let ghost dv = (d.0@, d.1@);
                out.push(d);
                proof {
                    assert(pairs_view(out@) =~= before.push(dv));
                    assert forall|ds: Seq<(Seq<char>, Seq<char>)>| before + (seq![dv] + ds) =~= pairs_view(out@) + ds by {}
                }
            },
        }
        k = k + 1;
    }
    assert(pairs_view(out@) + seq![] =~= pairs_view(out@));
    Ok(out)
}

/// The parameters of the arguments `args[k..]`, in order. Each argument is
/// a definition (see `spec_parameter`) or, failing that, a parameter file
/// whose text comes with it (see `spec_parameter_lines`); an argument that
/// is neither is an error, and so is a file line that defines nothing.
pub open spec fn spec_load_parameters(args: Seq<(String, Option<String>)>, k: int) -> Result<Seq<(Seq<char>, Seq<char>)>, ParseError>
    decreases args.len() - k,
{
    if k < 0 || k >= args.len() {
        Ok(seq![])
    } else {
        let arg = encode_utf8(args[k].0@);
        let here = match spec_parameter(arg, 0, arg.len() as int) {
            Some(d) => Ok(seq![d]),
            None => match args[k].1 {
                Some(text) => {
                    let s = encode_utf8(text@);
                    spec_parameter_lines(s, line_spans(s, 0, s.len() as int), 0)
                },
                None => Err(ParseError::UnknownParameterSource),
            },
        };
        match here {
            Err(e) => Err(e),
            Ok(ds) => match spec_load_parameters(args, k + 1) {
                Ok(rest) => Ok(ds + rest),
                Err(e) => Err(e),
            },
        }
    }
}

/// The parameters of the arguments `args` (see `spec_load_parameters`):
/// each argument comes with the text of the file it names, when it names
/// one.
pub fn load_parameters(args: &Vec<(String, Option<String>)>) -> (r: Result<Vec<(String, String)>, ParseError>)
    ensures
        match r {
            Ok(v) => spec_load_parameters(args@, 0) == Ok::<Seq<(Seq<char>, Seq<char>)>, ParseError>(pairs_view(v@)),
            Err(e) => spec_load_parameters(args@, 0) == Err::<Seq<(Seq<char>, Seq<char>)>, ParseError>(e),
        },
{
    let mut out: Vec<(String, String)> = Vec::new();
    let mut k: usize = 0;
    assert(pairs_view(out@) =~= seq![]);
    assert(forall|ds: Seq<(Seq<char>, Seq<char>)>| seq![] + ds =~= ds);
    while k < args.len()
        invariant
            k <= args@.len(),
            spec_load_parameters(args@, 0) == (match spec_load_parameters(args@, k as int) {
                Ok(ds) => Ok(pairs_view(out@) + ds),
                Err(e) => Err(e),
            }),
        decreases args@.len() - k,
    {
        let ghost before = pairs_view(out@);
        let arg = args[k].0.as_str();
        match parameter_of(arg) {
            Some(d) => {
                let ghost dv = (d.0@, d.1@);
                out.push(d);
                proof {
                    assert(pairs_view(out@) =~= before + seq![dv]);
                    assert forall|ds: Seq<(Seq<char>, Seq<char>)>| before + (seq![dv] + ds) =~= pairs_view(out@) + ds by {}
                }
            },
            None => match &args[k].1 {
                Some(text) => match parameters_of_text(text.as_str()) {
                    Ok(ds) => {
                        let ghost dsv = pairs_view(ds@);
                        let mut ds = ds;
                        out.append(&mut ds);
                        proof {
                            assert(pairs_view(out@) =~= before + dsv);
                            assert forall|rest: Seq<(Seq<char>, Seq<char>)>| before + (dsv + rest) =~= pairs_view(out@) + rest by {}
                        }
                    },
                    Err(e) => {
                        return Err(e);
                    },
                },
                None => {
                    return Err(ParseError::UnknownParameterSource);
                },
            },
        }
        k = k + 1;
    }
    assert(pairs_view(out@) + seq![] =~= pairs_view(out@));
    Ok(out)
}

} // verus!
