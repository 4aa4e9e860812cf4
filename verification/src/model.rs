//! Look-up tables with fewer inputs than the logic elements have: the free
//! inputs are tied to the first input and the table is widened so that it
//! ignores them.
use vstd::prelude::*;
use vstd::arithmetic::power2::{pow2, lemma_pow2_unfold, lemma_pow2_pos, lemma2_to64};
use crate::types::{LogicBlock, Model};

verus! {

/// The abstract content of a look-up table.
pub struct LogicBlockView {
    pub inputs: Seq<Seq<char>>,
    pub output: Seq<char>,
    pub truth_table: Seq<bool>,
    pub truth_idxs: Seq<usize>,
}

impl DeepView for LogicBlock {
    type V = LogicBlockView;

    open spec fn deep_view(&self) -> LogicBlockView {
        LogicBlockView {
            inputs: self.inputs.deep_view(),
            output: self.output@,
            truth_table: self.truth_table@,
            truth_idxs: self.truth_idxs@,
        }
    }
}

/// The indices at which `tt` holds `true`, in increasing order.
pub open spec fn spec_true_indices(tt: Seq<bool>, n: int) -> Seq<usize>
    decreases n,
{
    if n <= 0 {
        Seq::empty()
    } else if tt[n - 1] {
        spec_true_indices(tt, n - 1).push((n - 1) as usize)
    } else {
        spec_true_indices(tt, n - 1)
    }
}

/// A look-up table whose inputs can be tied up to `k` inputs: it has a first
/// input and at least one entry per combination of its inputs, and `k` is
/// small enough for a table of `2^k` entries to be counted in a `u32`.
pub open spec fn spec_can_connect(lb: LogicBlockView, k: u16) -> bool {
    lb.inputs.len() < k ==> {
        &&& lb.inputs.len() >= 1
        &&& lb.truth_table.len() >= pow2(lb.inputs.len() as nat)
        &&& k <= 32
    }
}

/// The look-up table with its free inputs tied to its first input: the first
/// input repeated in front of the inputs until there are `k`, the table of
/// `2^k` entries that repeats the original table (so the result does not
/// depend on the added inputs), and the indices of its true entries.
/// A table with `k` inputs or more stays as it is.
pub open spec fn spec_connected(lb: LogicBlockView, k: u16) -> LogicBlockView {
    let l = lb.inputs.len();
    if l < k {
        let tt = Seq::new(pow2(k as nat), |i: int| lb.truth_table[i % pow2(l as nat) as int]);
        LogicBlockView {
            inputs: Seq::new((k - l) as nat, |i: int| lb.inputs[0]) + lb.inputs,
            output: lb.output,
            truth_table: tt,
            truth_idxs: spec_true_indices(tt, tt.len() as int),
        }
    } else {
        lb
    }
}

proof fn lemma_pow2_le(a: nat, b: nat)
    requires a <= b,
    ensures pow2(a) <= pow2(b),
    decreases b - a,
{
    if a < b {
        lemma_pow2_le(a + 1, b);
        lemma_pow2_unfold(a + 1);
        lemma_pow2_pos(a);
    }
}

/// Ties the free inputs of one look-up table (see `spec_connected`).
fn connect_block(lb: &mut LogicBlock, k: u16)
    requires
        spec_can_connect(old(lb).deep_view(), k),
    ensures
        final(lb).deep_view() == spec_connected(old(lb).deep_view(), k),
{
    let ghost l0 = lb.inputs@.len();
    let ghost tt0 = lb.truth_table@;
    if lb.inputs.len() >= k as usize {
        return;
    }
    let first: String = lb.inputs[0].clone();
    let ghost first_v = first@;
    assert(first_v == old(lb).deep_view().inputs[0]);
    proof {
        lemma_pow2_le(l0 as nat, 31);
        lemma2_to64();
    }
    let mut new_tt: Vec<bool> = Vec::new();
    let mut len: usize = lb.inputs.len();
    // the current table repeats the original one
    assert(lb.truth_table@.subrange(0, pow2(l0 as nat) as int) =~= Seq::new(pow2(l0 as nat), |i: int| tt0[i % pow2(l0 as nat) as int])) by {
        assert forall|i: int| 0 <= i < pow2(l0 as nat) implies #[trigger] tt0[i % pow2(l0 as nat) as int] == tt0[i] by {
            lemma_pow2_pos(l0 as nat);
            assert(i % pow2(l0 as nat) as int == i) by (nonlinear_arith) requires 0 <= i < pow2(l0 as nat);
        }
    }
    while len < k as usize
        invariant
            1 <= l0 <= len <= k <= 32,
            lb.inputs@.len() == len,
            lb.inputs.deep_view() =~= Seq::new((len - l0) as nat, |i: int| first_v) + old(lb).deep_view().inputs,
            lb.output@ == old(lb).output@,
            lb.truth_idxs@ == old(lb).truth_idxs@,
            tt0 == old(lb).truth_table@,
            tt0.len() >= pow2(l0 as nat),
            lb.truth_table@.len() >= pow2(len as nat),
            lb.truth_table@.subrange(0, pow2(len as nat) as int) =~= Seq::new(pow2(len as nat), |i: int| tt0[i % pow2(l0 as nat) as int]),
            len > l0 ==> new_tt@ == lb.truth_table@,
            len > l0 ==> lb.truth_table@.len() == pow2(len as nat),
            first_v == first@,
        decreases k - len,
    {
        proof {
            lemma_pow2_le(len as nat, 31);
            lemma2_to64();
            lemma_pow2_unfold(len as nat + 1);
            lemma_pow2_pos(len as nat);
            lemma_pow2_pos(l0 as nat);
        }
        let half_len: u32 = 1u32 << (len as u32);
        assert(half_len == pow2(len as nat)) by {
            vstd::bits::lemma_u32_shl_is_mul(1, len as u32);
            vstd::arithmetic::power2::lemma_pow2(len as nat);
        }
        let ghost half = lb.truth_table@.subrange(0, half_len as int);
        let mut doubled: Vec<bool> = Vec::new();
        let mut r: usize = 0;
        while r < 2
            invariant
                r <= 2,
                half_len as int <= lb.truth_table@.len(),
                half == lb.truth_table@.subrange(0, half_len as int),
                doubled@ =~= if r == 0 { Seq::<bool>::empty() } else if r == 1 { half } else { half + half },
            decreases 2 - r,
        {
            let ghost before = doubled@;
            let mut i: usize = 0;
            while i < half_len as usize
                invariant
                    i <= half_len,
                    half_len as int <= lb.truth_table@.len(),
                    half == lb.truth_table@.subrange(0, half_len as int),
                    doubled@ =~= before + half.subrange(0, i as int),
                decreases half_len - i,
            {
                doubled.push(lb.truth_table[i]);
                i = i + 1;
            }
            assert(half.subrange(0, half_len as int) =~= half);
            r = r + 1;
        }
        new_tt = doubled;
        let ghost p = pow2(len as nat) as int;
        let ghost p0 = pow2(l0 as nat) as int;
        proof {
            assert forall|i: int| 0 <= i < 2 * p implies #[trigger] new_tt@[i] == tt0[i % p0] by {
                if i < p {
                    assert(new_tt@[i] == half[i]);
                } else {
                    assert(new_tt@[i] == half[i - p]);
                }
                let j = if i < p { i } else { i - p };
                assert(half[j] == tt0[j % p0]);
                if i >= p {
                    lemma_mod_pow2_shift(j, l0 as nat, len as nat);
                }
            }
        }
        let ghost before_dv = lb.inputs.deep_view();
        lb.inputs.insert(0, first.clone());
        proof {
            let nv = lb.inputs.deep_view();
            assert(nv =~= seq![first_v] + before_dv);
            assert(nv =~= seq![first_v] + Seq::new((len - l0) as nat, |i: int| first_v) + old(lb).deep_view().inputs);
            assert(seq![first_v] + Seq::new((len - l0) as nat, |i: int| first_v) =~= Seq::new((len + 1 - l0) as nat, |i: int| first_v));
        }
        lb.truth_table = new_tt.clone();
        len = len + 1;
        assert(lb.truth_table@.subrange(0, pow2(len as nat) as int) =~= Seq::new(pow2(len as nat), |i: int| tt0[i % pow2(l0 as nat) as int]));
    }
    // indices of the true entries
    let mut idxs: Vec<usize> = Vec::new();
    let mut i: usize = 0;
    assert(lb.truth_table@.len() == pow2(k as nat));
    while i < lb.truth_table.len()
        invariant
            i <= lb.truth_table@.len(),
            idxs@ == spec_true_indices(lb.truth_table@, i as int),
        decreases lb.truth_table@.len() - i,
    {
        if lb.truth_table[i] {
            idxs.push(i);
        }
        i = i + 1;
    }
    lb.truth_idxs = idxs;
    proof {
        assert(lb.truth_table@ =~= lb.truth_table@.subrange(0, pow2(k as nat) as int));
    }
}

/// Adding a multiple `2^b` of `2^a` does not change a residue modulo `2^a`.
proof fn lemma_mod_pow2_shift(j: int, a: nat, b: nat)
    requires a <= b, 0 <= j,
    ensures (j + pow2(b)) % (pow2(a) as int) == j % (pow2(a) as int),
{
    lemma_pow2_pos(a);
    vstd::arithmetic::power2::lemma_pow2_adds(a, (b - a) as nat);
    assert(pow2(b) == pow2(a) * pow2((b - a) as nat));
    vstd::arithmetic::div_mod::lemma_mod_multiples_vanish(pow2((b - a) as nat) as int, j, pow2(a) as int);
}

/// Logic blocks that leave inputs of their logic element unconnected.
pub trait NoDangle {
    spec fn logic_view(&self) -> Seq<LogicBlockView>;

    /// Ties the unconnected inputs of every look-up table to its first input,
    /// for logic elements of `k_lut` inputs.
    fn connect_dangling_input_ports(&mut self, k_lut: u16)
        requires
            forall|b: int| 0 <= b < old(self).logic_view().len()
                ==> spec_can_connect(#[trigger] old(self).logic_view()[b], k_lut),
        ensures
            final(self).logic_view().len() == old(self).logic_view().len(),
            forall|b: int| 0 <= b < old(self).logic_view().len()
                ==> #[trigger] final(self).logic_view()[b] == spec_connected(old(self).logic_view()[b], k_lut),
    ;
}

impl NoDangle for Model {
    open spec fn logic_view(&self) -> Seq<LogicBlockView> {
        self.logic.deep_view()
    }

    /// Only the look-up tables change: the model's name, ports and latches
    /// stay as they were.
    fn connect_dangling_input_ports(&mut self, k_lut: u16)
        ensures
            final(self).name == old(self).name,
            final(self).inputs == old(self).inputs,
            final(self).outputs == old(self).outputs,
            final(self).latched == old(self).latched,
    {
        assert(old(self).logic_view() == old(self).logic.deep_view());
        let mut b: usize = 0;
        while b < self.logic.len()
            invariant
                b <= self.logic@.len(),
                self.logic@.len() == old(self).logic@.len(),
                self.name == old(self).name,
                self.inputs == old(self).inputs,
                self.outputs == old(self).outputs,
                self.latched == old(self).latched,
                forall|j: int| 0 <= j < b ==> #[trigger] self.logic.deep_view()[j] == spec_connected(old(self).logic.deep_view()[j], k_lut),
                forall|j: int| b <= j < self.logic@.len() ==> #[trigger] self.logic.deep_view()[j] == old(self).logic.deep_view()[j],
                forall|j: int| 0 <= j < old(self).logic.deep_view().len()
                    ==> spec_can_connect(#[trigger] old(self).logic.deep_view()[j], k_lut),
            decreases self.logic@.len() - b,
        {
            let ghost before = self.logic.deep_view();
            proof {
                assert(before[b as int] == self.logic@[b as int].deep_view());
                assert(before[b as int] == old(self).logic.deep_view()[b as int]);
                assert(spec_can_connect(old(self).logic.deep_view()[b as int], k_lut));
            }
            connect_block(&mut self.logic[b], k_lut);
            proof {
                let after = self.logic.deep_view();
                assert forall|j: int| 0 <= j < after.len() && j != b implies after[j] == before[j] by {}
                assert(after[b as int] == self.logic@[b as int].deep_view());
                assert(after[b as int] == spec_connected(old(self).logic.deep_view()[b as int], k_lut));
            }
            b = b + 1;
        }
    }
}

/// Two to the power `n`, for `n` below 32.
fn pow2_u64(n: usize) -> (r: u64)
    requires
        n < 32,
    ensures
        r == pow2(n as nat),
{
    let mut r: u64 = 1;
    let mut i: usize = 0;
    assert(pow2(0) == 1) by { lemma2_to64(); }
    while i < n
        invariant
            i <= n,
            n < 32,
            r == pow2(i as nat),
        decreases n - i,
    {
        proof {
            lemma_pow2_unfold((i + 1) as nat);
            lemma_pow2_le((i + 1) as nat, 32);
            lemma2_to64();
        }
        r = r * 2;
        i = i + 1;
    }
    r
}

/// Whether the free inputs of `lb` can be tied for logic elements of `k`
/// inputs (see `spec_can_connect`).
fn block_can_connect(lb: &LogicBlock, k: u16) -> (r: bool)
    ensures
        r == spec_can_connect(lb.deep_view(), k),
{
    let n = lb.inputs.len();
    if n >= k as usize {
        return true;
    }
    if n == 0 || k > 32 {
        return false;
    }
    (lb.truth_table.len() as u64) >= pow2_u64(n)
}

impl Model {
    /// Whether every look-up table of the model can have its free inputs tied
    /// for logic elements of `k_lut` inputs: what
    /// `connect_dangling_input_ports` requires.
    pub fn can_connect_dangling_input_ports(&self, k_lut: u16) -> (r: bool)
        ensures
            r == forall|b: int| 0 <= b < self.logic_view().len()
                ==> spec_can_connect(#[trigger] self.logic_view()[b], k_lut),
    {
        assert(self.logic_view() == self.logic.deep_view());
        let mut b: usize = 0;
        while b < self.logic.len()
            invariant
                b <= self.logic@.len(),
                forall|j: int| 0 <= j < b ==> spec_can_connect(#[trigger] self.logic.deep_view()[j], k_lut),
            decreases self.logic@.len() - b,
        {
            assert(self.logic.deep_view()[b as int] == self.logic@[b as int].deep_view());
            if !block_can_connect(&self.logic[b], k_lut) {
                assert(!spec_can_connect(self.logic_view()[b as int], k_lut));
                return false;
            }
            b = b + 1;
        }
        true
    }
}

} // verus!
