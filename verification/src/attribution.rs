//! The attribution stages: transposition of bit matrices, the chained
//! stable sorts by aggregation bit and breakdown key, credit
//! accumulation, per-user capping and per-key aggregation.

use vstd::prelude::*;
use crate::boolean::{bit_decompose, bits_value, recon_seq};
use crate::ff::Field;
use crate::secret_sharing::{Prss, Role, WorldShare};
use crate::sort::{
    apply_sort_permutation, as_ints, generate_permutation_and_reveal_shuffled, is_permutation,
    is_rank_permutation, lex_lt, record_keys, Resharable,
};

verus! {

/// One attribution row: trigger flag, same-user helper bit, breakdown key
/// and running credit, all as three-party sharings.
#[derive(Clone, Copy, Debug, PartialEq, Eq)]
pub struct AttributionInputRow<F: Field> {
    pub is_trigger_bit: WorldShare<F>,
    pub helper_bit: WorldShare<F>,
    pub breakdown_key: WorldShare<F>,
    pub credit: WorldShare<F>,
}

impl<F: Field> AttributionInputRow<F> {
    /// All four sharings are well-formed.
    pub open spec fn wf(self) -> bool {
        self.is_trigger_bit.wf() && self.helper_bit.wf() && self.breakdown_key.wf()
            && self.credit.wf()
    }
}

/// A capped credit with its aggregation bit: the shape rows take between
/// capping and aggregation.
#[derive(Clone, Copy, Debug, PartialEq, Eq)]
pub struct CappedCreditsWithAggregationBit<F: Field> {
    pub helper_bit: WorldShare<F>,
    pub aggregation_bit: WorldShare<F>,
    pub breakdown_key: WorldShare<F>,
    pub credit: WorldShare<F>,
}

/// One aggregate output row: a breakdown key and its total credit.
#[derive(Clone, Copy, Debug, PartialEq, Eq)]
pub struct AggregateCreditOutputRow<F: Field> {
    pub breakdown_key: WorldShare<F>,
    pub credit: WorldShare<F>,
}

impl<F: Field> AggregateCreditOutputRow<F> {
    /// Both sharings are well-formed.
    pub open spec fn wf(self) -> bool {
        self.breakdown_key.wf() && self.credit.wf()
    }
}

impl<F: Field> Resharable<F> for CappedCreditsWithAggregationBit<F> {
    /// The reconstructed values, in the order `helper_bit`,
    /// `aggregation_bit`, `breakdown_key`, `credit`.
    open spec fn recon_view(self) -> Seq<int> {
        seq![
            self.helper_bit.recon(),
            self.aggregation_bit.recon(),
            self.breakdown_key.recon(),
            self.credit.recon(),
        ]
    }

    open spec fn wf(self) -> bool {
        self.helper_bit.wf() && self.aggregation_bit.wf() && self.breakdown_key.wf()
            && self.credit.wf()
    }

    /// Reshare each field with fresh randomness; every reconstructed value
    /// is preserved.
    fn reshare(&self, to_helper: Role, prss: &mut Prss) -> (r: Self) {
        let r = CappedCreditsWithAggregationBit {
            helper_bit: crate::basics::reshare_one(&self.helper_bit, to_helper, prss),
            aggregation_bit: crate::basics::reshare_one(&self.aggregation_bit, to_helper, prss),
            breakdown_key: crate::basics::reshare_one(&self.breakdown_key, to_helper, prss),
            credit: crate::basics::reshare_one(&self.credit, to_helper, prss),
        };
        proof {
            assert(r.recon_view() =~= self.recon_view());
        }
        r
    }
}

/// Transpose rows of bit-shares into bit-major columns: entry `[b][i]` of
/// the output is entry `[i][b]` of the input.
pub fn transpose<F: Field>(input: &Vec<Vec<WorldShare<F>>>) -> (out: Vec<Vec<WorldShare<F>>>)
    requires
        input@.len() > 0,
        forall|i: int| 0 <= i < input@.len() ==> (#[trigger] input@[i])@.len() == input@[0]@.len(),
    ensures
        out@.len() == input@[0]@.len(),
        forall|b: int| 0 <= b < out@.len() ==> (#[trigger] out@[b])@.len() == input@.len(),
        forall|b: int, i: int| 0 <= b < out@.len() && 0 <= i < input@.len() ==> #[trigger] out@[
            b]@[i] == input@[i]@[b],
{
    let bit_length = input[0].len();
    let n = input.len();
    let mut out: Vec<Vec<WorldShare<F>>> = Vec::new();
    let mut b: usize = 0;
    while b < bit_length
        invariant
            b <= bit_length,
            n == input@.len() > 0,
            bit_length == input@[0]@.len(),
            forall|i: int| 0 <= i < n ==> (#[trigger] input@[i])@.len() == bit_length,
            out@.len() == b,
            forall|p: int| 0 <= p < b ==> (#[trigger] out@[p])@.len() == n,
            forall|p: int, i: int| 0 <= p < b && 0 <= i < n ==> #[trigger] out@[p]@[i] == input@[
                i]@[p],
        decreases bit_length - b,
    {
        let mut col: Vec<WorldShare<F>> = Vec::new();
        let mut i: usize = 0;
        while i < n
            invariant
                i <= n,
                b < bit_length,
                n == input@.len(),
                forall|q: int| 0 <= q < n ==> (#[trigger] input@[q])@.len() == bit_length,
                col@.len() == i,
                forall|q: int| 0 <= q < i ==> #[trigger] col@[q] == input@[q]@[b as int],
            decreases n - i,
        {
            col.push(input[i][b]);
            i = i + 1;
        }
        out.push(col);
        b = b + 1;
    }
    out
}

/// The aggregation bits of the rows, as sort keys.
pub open spec fn agg_keys<F: Field>(rows: Seq<CappedCreditsWithAggregationBit<F>>) -> Seq<int> {
    rows.map_values(|r: CappedCreditsWithAggregationBit<F>| r.aggregation_bit.recon())
}

/// The breakdown keys of the rows, as sort keys.
pub open spec fn bd_keys<F: Field>(rows: Seq<CappedCreditsWithAggregationBit<F>>) -> Seq<int> {
    rows.map_values(|r: CappedCreditsWithAggregationBit<F>| r.breakdown_key.recon())
}

/// All rows are well-formed.
pub open spec fn rows_wf<F: Field>(rows: Seq<CappedCreditsWithAggregationBit<F>>) -> bool {
    forall|i: int| 0 <= i < rows.len() ==> (#[trigger] rows[i]).wf()
}

/// Lexicographic order on (breakdown key, aggregation bit, original
/// position): the order the chained sorts realize.
pub open spec fn lex3_lt(b1: int, a1: int, i1: int, b2: int, a2: int, i2: int) -> bool {
    b1 < b2 || (b1 == b2 && (a1 < a2 || (a1 == a2 && i1 < i2)))
}

/// Decompose every row's breakdown key into shared bits, record-major.
pub fn bit_decompose_breakdown_key<F: Field>(
    input: &Vec<CappedCreditsWithAggregationBit<F>>,
    prss: &mut Prss,
) -> (out: Vec<Vec<WorldShare<F>>>)
    requires
        rows_wf(input@),
    ensures
        out@.len() == input@.len(),
        forall|i: int| 0 <= i < out@.len() ==> (#[trigger] out@[i])@.len() == F::bits_spec(),
        forall|i: int, b: int| 0 <= i < out@.len() && 0 <= b < F::bits_spec() ==> (
            #[trigger] out@[i]@[b]).wf() && 0 <= out@[i]@[b].recon() <= 1,
        forall|i: int| 0 <= i < out@.len() ==> bits_value(recon_seq((#[trigger] out@[i])@))
            == input@[i].breakdown_key.recon(),
{
    let n = input.len();
    let mut out: Vec<Vec<WorldShare<F>>> = Vec::new();
    let mut i: usize = 0;
    while i < n
        invariant
            i <= n,
            n == input@.len(),
            rows_wf(input@),
            out@.len() == i,
            forall|q: int| 0 <= q < i ==> (#[trigger] out@[q])@.len() == F::bits_spec(),
            forall|q: int, b: int| 0 <= q < i && 0 <= b < F::bits_spec() ==> (#[trigger] out@[
                q]@[b]).wf() && 0 <= out@[q]@[b].recon() <= 1,
            forall|q: int| 0 <= q < i ==> bits_value(recon_seq((#[trigger] out@[q])@)) == input@[
                q].breakdown_key.recon(),
        decreases n - i,
    {
        let bits = bit_decompose(&input[i].breakdown_key, prss);
        out.push(bits);
        i = i + 1;
    }
    out
}

/// Sort the rows by their aggregation bit, stably: some stable rank
/// permutation over the aggregation bits carries each input row, reshared,
/// to its destination.
pub fn sort_by_aggregation_bit<F: Field>(
    input: &Vec<CappedCreditsWithAggregationBit<F>>,
    prss: &mut Prss,
) -> (out: Vec<CappedCreditsWithAggregationBit<F>>)
    requires
        rows_wf(input@),
    ensures
        out@.len() == input@.len(),
        rows_wf(out@),
        exists|ranks: Seq<int>|
            {
                &&& #[trigger] is_rank_permutation(agg_keys(input@), ranks)
                &&& forall|i: int| 0 <= i < input@.len() ==> out@[#[trigger] ranks[i]]
                    .recon_view() == input@[i].recon_view()
            },
{
    let n = input.len();
    // One single-bit key column: the aggregation bits.
    let mut col: Vec<WorldShare<F>> = Vec::new();
    let mut i: usize = 0;
    while i < n
        invariant
            i <= n,
            n == input@.len(),
            rows_wf(input@),
            col@.len() == i,
            forall|q: int| 0 <= q < i ==> #[trigger] col@[q] == input@[q].aggregation_bit,
        decreases n - i,
    {
        col.push(input[i].aggregation_bit);
        i = i + 1;
    }
    let mut cols: Vec<Vec<WorldShare<F>>> = Vec::new();
    cols.push(col);
    let ranks = generate_permutation_and_reveal_shuffled(&cols, 1, n);
    let out = apply_sort_permutation(input, &ranks, prss);
    proof {
        let rr = as_ints(ranks@);
        let keys = record_keys(cols@, n as nat);
        assert forall|q: int| 0 <= q < n implies keys[q] == agg_keys(input@)[q] by {
            let rs = Seq::new(cols@.len(), |b: int| cols@[b]@[q].recon());
            assert(rs.len() == 1);
            assert(rs[0] == input@[q].aggregation_bit.recon());
            assert(rs.skip(1) =~= Seq::<int>::empty());
            assert(bits_value(rs) == rs[0] + 2 * bits_value(rs.skip(1)));
        }
        assert(keys =~= agg_keys(input@));
        assert(is_rank_permutation(agg_keys(input@), rr));
        assert(forall|i2: int| 0 <= i2 < n ==> out@[#[trigger] rr[i2]].recon_view() == input@[
            i2].recon_view());
        assert forall|k: int| 0 <= k < n implies (#[trigger] out@[k]).wf() by {
            assert(crate::sort::holds_value(rr, k));
            let i0 = choose|p: int| 0 <= p < rr.len() && #[trigger] rr[p] == k;
            assert(out@[rr[i0]].wf());
        }
    }
    out
}

/// Sort the rows by aggregation bit first, then stably by breakdown key:
/// the destinations are ordered lexicographically by (breakdown key,
/// aggregation bit, original position), so chaining the two stable sorts
/// yields the combined order.
pub fn sort_by_aggregation_bit_and_breakdown_key<F: Field>(
    input: &Vec<CappedCreditsWithAggregationBit<F>>,
    prss: &mut Prss,
) -> (out: Vec<CappedCreditsWithAggregationBit<F>>)
    requires
        rows_wf(input@),
    ensures
        out@.len() == input@.len(),
        rows_wf(out@),
        exists|ranks: Seq<int>|
            {
                &&& ranks.len() == input@.len()
                &&& #[trigger] is_permutation(ranks)
                &&& forall|i: int| 0 <= i < input@.len() ==> out@[#[trigger] ranks[i]]
                    .recon_view() == input@[i].recon_view()
                &&& forall|i: int, j: int| #![trigger ranks[i], ranks[j]] 0 <= i < input@.len()
                    && 0 <= j < input@.len() ==> (ranks[i] < ranks[j] <==> lex3_lt(
                    bd_keys(input@)[i], agg_keys(input@)[i], i,
                    bd_keys(input@)[j], agg_keys(input@)[j], j))
            },
{
    let n = input.len();
    // First pass: stable sort by aggregation bit.
    let sorted1 = sort_by_aggregation_bit(input, prss);
    let ghost r1 = choose|ranks: Seq<int>|
        {
            &&& #[trigger] is_rank_permutation(agg_keys(input@), ranks)
            &&& forall|i: int| 0 <= i < input@.len() ==> sorted1@[#[trigger] ranks[i]]
                .recon_view() == input@[i].recon_view()
        };
    // Second pass: stable sort by breakdown key, over its shared bits.
    let bits = bit_decompose_breakdown_key(&sorted1, prss);
    if n == 0 {
        let out: Vec<CappedCreditsWithAggregationBit<F>> = Vec::new();
        proof {
            let ranks = Seq::<int>::empty();
            assert(is_permutation(ranks));
            assert(ranks.len() == input@.len());
        }
        return out;
    }
    let cols = transpose(&bits);
    proof {
        F::field_facts();
    }
    let ranks2 = generate_permutation_and_reveal_shuffled(&cols, 1, n);
    let out = apply_sort_permutation(&sorted1, &ranks2, prss);
    proof {
        let rr1 = r1;
        let rr2 = as_ints(ranks2@);
        let keys2 = record_keys(cols@, n as nat);
        // The second sort's keys are the breakdown keys after the first sort.
        assert forall|q: int| 0 <= q < n implies keys2[q] == sorted1@[q].breakdown_key.recon()
            by {
            let rs = Seq::new(cols@.len(), |b: int| cols@[b]@[q].recon());
            assert(rs =~= recon_seq(bits@[q]@));
            assert(bits_value(recon_seq(bits@[q]@)) == sorted1@[q].breakdown_key.recon());
        }
        let ranks = Seq::new(n as nat, |i: int| rr2[rr1[i]]);
        // recon_view equality carries breakdown key and aggregation bit.
        assert forall|i: int| 0 <= i < n implies out@[#[trigger] ranks[i]].recon_view()
            == input@[i].recon_view() && sorted1@[rr1[i]].breakdown_key.recon() == bd_keys(
            input@)[i] && sorted1@[rr1[i]].aggregation_bit.recon() == agg_keys(input@)[i] by {
            assert(0 <= rr1[i] < n);
            assert(sorted1@[rr1[i]].recon_view() == input@[i].recon_view());
            assert(sorted1@[rr1[i]].recon_view()[2] == input@[i].recon_view()[2]);
            assert(sorted1@[rr1[i]].recon_view()[1] == input@[i].recon_view()[1]);
            assert(out@[rr2[rr1[i]]].recon_view() == sorted1@[rr1[i]].recon_view());
        }
        assert forall|i: int, j: int| #![trigger ranks[i], ranks[j]] 0 <= i < n && 0 <= j < n
            implies (ranks[i] < ranks[j] <==> lex3_lt(
            bd_keys(input@)[i], agg_keys(input@)[i], i,
            bd_keys(input@)[j], agg_keys(input@)[j], j)) by {
            let a = rr1[i];
            let b = rr1[j];
            assert(0 <= a < n && 0 <= b < n);
            if i != j {
                assert(a != b);
            }
            // rr2 orders by (breakdown key after first sort, position after
            // first sort); rr1 orders positions by (aggregation bit,
            // original position).
            assert(ranks[i] < ranks[j] <==> lex_lt(keys2[a], a, keys2[b], b));
            assert(rr1[i] < rr1[j] <==> lex_lt(
                agg_keys(input@)[i], i, agg_keys(input@)[j], j));
            assert(keys2[a] == bd_keys(input@)[i]);
            assert(keys2[b] == bd_keys(input@)[j]);
        }
        // the composed map is a permutation
        assert forall|i: int| 0 <= i < n implies 0 <= #[trigger] ranks[i] < n by {
            assert(0 <= rr1[i] < n);
        }
        assert forall|i: int, j: int| #![trigger ranks[i], ranks[j]] 0 <= i < n && 0 <= j < n
            && i != j implies ranks[i] != ranks[j] by {
            assert(rr1[i] != rr1[j]);
        }
        assert forall|k: int| 0 <= k < n implies #[trigger] crate::sort::holds_value(ranks, k)
            by {
            assert(crate::sort::holds_value(rr2, k));
            let a = choose|p: int| 0 <= p < rr2.len() && #[trigger] rr2[p] == k;
            assert(crate::sort::holds_value(rr1, a));
            let i0 = choose|p: int| 0 <= p < rr1.len() && #[trigger] rr1[p] == a;
            assert(ranks[i0] == k);
        }
        assert(is_permutation(ranks));
        assert(ranks.len() == input@.len());
        assert forall|k: int| 0 <= k < n implies (#[trigger] out@[k]).wf() by {
            assert(crate::sort::holds_value(rr2, k));
            let i0 = choose|p: int| 0 <= p < rr2.len() && #[trigger] rr2[p] == k;
            assert(out@[rr2[i0]].wf());
        }
    }
    out
}

/// The reconstructed trigger bits of attribution rows.
pub open spec fn att_triggers<F: Field>(rows: Seq<AttributionInputRow<F>>) -> Seq<int> {
    rows.map_values(|r: AttributionInputRow<F>| r.is_trigger_bit.recon())
}

/// The reconstructed helper bits of attribution rows.
pub open spec fn att_helpers<F: Field>(rows: Seq<AttributionInputRow<F>>) -> Seq<int> {
    rows.map_values(|r: AttributionInputRow<F>| r.helper_bit.recon())
}

/// The reconstructed breakdown keys of attribution rows.
pub open spec fn att_bds<F: Field>(rows: Seq<AttributionInputRow<F>>) -> Seq<int> {
    rows.map_values(|r: AttributionInputRow<F>| r.breakdown_key.recon())
}

/// The reconstructed credits of attribution rows.
pub open spec fn att_credits<F: Field>(rows: Seq<AttributionInputRow<F>>) -> Seq<int> {
    rows.map_values(|r: AttributionInputRow<F>| r.credit.recon())
}

/// All attribution rows are well-formed.
pub open spec fn att_wf<F: Field>(rows: Seq<AttributionInputRow<F>>) -> bool {
    forall|i: int| 0 <= i < rows.len() ==> (#[trigger] rows[i]).wf()
}

/// The credit accumulation that lands on row `i`: the field sum of the
/// trigger values of the maximal run of same-user trigger rows directly
/// after `i`, reduced modulo `m` as the field arithmetic does.
pub open spec fn run_sum_mod(t: Seq<int>, h: Seq<int>, v: Seq<int>, i: int, m: int) -> int
    decreases t.len() - i,
{
    if i + 1 < t.len() && h[i + 1] == 1 && t[i + 1] == 1 {
        (v[i + 1] + run_sum_mod(t, h, v, i + 1, m)) % m
    } else {
        0
    }
}

/// The accumulated credit of row `i`: source rows receive their run sum,
/// trigger rows end with zero.
pub open spec fn acc_credit(t: Seq<int>, h: Seq<int>, v: Seq<int>, i: int, m: int) -> int {
    if t[i] == 1 {
        0
    } else {
        run_sum_mod(t, h, v, i, m)
    }
}

/// Accumulate credits over rows sorted by match key: each source row
/// receives the sum of the trigger values of the same-user trigger rows
/// immediately following it, and every trigger row's credit becomes zero.
/// All other fields are preserved.
pub fn accumulate_credit<F: Field>(
    input: &Vec<AttributionInputRow<F>>,
    prss: &mut Prss,
) -> (out: Vec<AttributionInputRow<F>>)
    requires
        att_wf(input@),
    ensures
        out@.len() == input@.len(),
        att_wf(out@),
        forall|i: int| 0 <= i < out@.len() ==> {
            let r = #[trigger] out@[i];
            &&& r.is_trigger_bit.recon() == input@[i].is_trigger_bit.recon()
            &&& r.helper_bit.recon() == input@[i].helper_bit.recon()
            &&& r.breakdown_key.recon() == input@[i].breakdown_key.recon()
            &&& r.credit.recon() == acc_credit(att_triggers(input@), att_helpers(input@),
                att_credits(input@), i, F::modulus())
        },
{
    proof {
        F::field_facts();
    }
    let ghost t = att_triggers(input@);
    let ghost h = att_helpers(input@);
    let ghost v = att_credits(input@);
    let ghost m = F::modulus();
    let n = input.len();
    // Walk backwards, carrying the run sum of the row just visited.
    let mut creds_rev: Vec<F> = Vec::new();
    let mut run: F = F::zero();
    let mut idx: usize = 0;
    while idx < n
        invariant
            idx <= n,
            n == input@.len(),
            att_wf(input@),
            t == att_triggers(input@),
            h == att_helpers(input@),
            v == att_credits(input@),
            m == F::modulus(),
            creds_rev@.len() == idx,
            run.valid(),
            idx >= 1 ==> run.as_int() == run_sum_mod(t, h, v, n - idx, m),
            forall|q: int| 0 <= q < idx ==> (#[trigger] creds_rev@[q]).valid()
                && creds_rev@[q].as_int() == acc_credit(t, h, v, n - 1 - q, m),
        decreases n - idx,
    {
        let i = n - 1 - idx;
        let run_i: F = if i + 1 < n {
            let t1 = input[i + 1].is_trigger_bit.reconstruct().as_u64();
            let h1 = input[i + 1].helper_bit.reconstruct().as_u64();
            if h1 == 1 && t1 == 1 {
                input[i + 1].credit.reconstruct().add(run)
            } else {
                F::zero()
            }
        } else {
            F::zero()
        };
        proof {
            assert(run_i.as_int() == run_sum_mod(t, h, v, i as int, m));
        }
        let ti = input[i].is_trigger_bit.reconstruct().as_u64();
        let cred_i: F = if ti == 1 {
            F::zero()
        } else {
            run_i
        };
        creds_rev.push(cred_i);
        run = run_i;
        idx = idx + 1;
    }
    // Rebuild the rows forward, sharing each accumulated credit afresh.
    let mut out: Vec<AttributionInputRow<F>> = Vec::new();
    let mut i: usize = 0;
    while i < n
        invariant
            i <= n,
            n == input@.len(),
            att_wf(input@),
            t == att_triggers(input@),
            h == att_helpers(input@),
            v == att_credits(input@),
            m == F::modulus(),
            creds_rev@.len() == n,
            forall|q: int| 0 <= q < n ==> (#[trigger] creds_rev@[q]).valid()
                && creds_rev@[q].as_int() == acc_credit(t, h, v, n - 1 - q, m),
            out@.len() == i,
            forall|q: int| 0 <= q < i ==> {
                let r = #[trigger] out@[q];
                &&& r.wf()
                &&& r.is_trigger_bit.recon() == input@[q].is_trigger_bit.recon()
                &&& r.helper_bit.recon() == input@[q].helper_bit.recon()
                &&& r.breakdown_key.recon() == input@[q].breakdown_key.recon()
                &&& r.credit.recon() == acc_credit(t, h, v, q, m)
            },
        decreases n - i,
    {
        let cred = creds_rev[n - 1 - i];
        let row = AttributionInputRow {
            is_trigger_bit: input[i].is_trigger_bit,
            helper_bit: input[i].helper_bit,
            breakdown_key: input[i].breakdown_key,
            credit: WorldShare::share_with(cred, prss),
        };
        out.push(row);
        i = i + 1;
    }
    out
}

/// The raw credit accumulated before row `i` inside its user block: zero at
/// a block start, otherwise the block sum up to and including row `i - 1`.
pub open spec fn cum_before(h: Seq<int>, c: Seq<int>, i: int) -> int
    decreases i,
{
    if i <= 0 || h[i] != 1 {
        0
    } else {
        cum_before(h, c, i - 1) + c[i - 1]
    }
}

/// The capped credit of row `i`: its own credit while the running block sum
/// stays within the cap, the remaining headroom when the cap is crossed on
/// this row, and zero afterwards.
pub open spec fn capped_credit(h: Seq<int>, c: Seq<int>, cap: int, i: int) -> int {
    let b = cum_before(h, c, i);
    if b + c[i] <= cap {
        c[i]
    } else if b < cap {
        cap - b
    } else {
        0
    }
}

/// The capped credits of a block, summed up to and including row `i`.
pub open spec fn cum_capped(h: Seq<int>, c: Seq<int>, cap: int, i: int) -> int
    decreases i,
{
    if i <= 0 || h[i] != 1 {
        capped_credit(h, c, cap, i)
    } else {
        cum_capped(h, c, cap, i - 1) + capped_credit(h, c, cap, i)
    }
}

/// The per-user cap law: within each user block, the sum of the capped
/// credits up to any row equals the raw block sum up to that row, capped.
/// At a block's last row this says the user's total attributed credit is
/// `min(total, cap)`.
pub proof fn lemma_per_user_cap(h: Seq<int>, c: Seq<int>, cap: int, i: int)
    requires
        0 <= i < c.len(),
        h.len() == c.len(),
        cap >= 0,
        forall|j: int| 0 <= j < c.len() ==> #[trigger] c[j] >= 0,
    ensures
        cum_capped(h, c, cap, i) == if cum_before(h, c, i) + c[i] <= cap {
            cum_before(h, c, i) + c[i]
        } else {
            cap
        },
    decreases i,
{
    if i == 0 || h[i] != 1 {
    } else {
        lemma_per_user_cap(h, c, cap, i - 1);
    }
}

/// Cap each user's total credit: scan every block in order and keep, trim
/// or zero each row's credit so the block total never exceeds the cap.
/// All other fields are preserved.
pub fn credit_capping<F: Field>(
    input: &Vec<AttributionInputRow<F>>,
    per_user_credit_cap: u32,
    prss: &mut Prss,
) -> (out: Vec<AttributionInputRow<F>>)
    requires
        att_wf(input@),
        per_user_credit_cap < F::modulus(),
    ensures
        out@.len() == input@.len(),
        att_wf(out@),
        forall|i: int| 0 <= i < out@.len() ==> {
            let r = #[trigger] out@[i];
            &&& r.is_trigger_bit.recon() == input@[i].is_trigger_bit.recon()
            &&& r.helper_bit.recon() == input@[i].helper_bit.recon()
            &&& r.breakdown_key.recon() == input@[i].breakdown_key.recon()
            &&& r.credit.recon() == capped_credit(att_helpers(input@), att_credits(input@),
                per_user_credit_cap as int, i)
        },
{
    proof {
        F::field_facts();
    }
    let ghost h = att_helpers(input@);
    let ghost c = att_credits(input@);
    let ghost m = F::modulus();
    let cap: u128 = per_user_credit_cap as u128;
    let n = input.len();
    let mut out: Vec<AttributionInputRow<F>> = Vec::new();
    let mut prev_total: u128 = 0;
    let mut i: usize = 0;
    while i < n
        invariant
            i <= n,
            n == input@.len(),
            att_wf(input@),
            h == att_helpers(input@),
            c == att_credits(input@),
            m == F::modulus(),
            3 <= m <= 0x1_0000_0000,
            cap == per_user_credit_cap as int,
            cap < m,
            out@.len() == i,
            i >= 1 ==> prev_total == cum_before(h, c, i - 1) + c[i - 1],
            prev_total <= i * 0x1_0000_0000,
            forall|q: int| 0 <= q < i ==> {
                let r = #[trigger] out@[q];
                &&& r.wf()
                &&& r.is_trigger_bit.recon() == input@[q].is_trigger_bit.recon()
                &&& r.helper_bit.recon() == input@[q].helper_bit.recon()
                &&& r.breakdown_key.recon() == input@[q].breakdown_key.recon()
                &&& r.credit.recon() == capped_credit(h, c, cap as int, q)
            },
        decreases n - i,
    {
        let hi = input[i].helper_bit.reconstruct().as_u64();
        let ci = input[i].credit.reconstruct();
        let ci_v: u128 = ci.as_u64() as u128;
        let b: u128 = if i > 0 && hi == 1 {
            prev_total
        } else {
            0
        };
        proof {
            assert(b == cum_before(h, c, i as int));
            ci.valid_facts();
        }
        let capped: u128 = if b + ci_v <= cap {
            ci_v
        } else if b < cap {
            cap - b
        } else {
            0
        };
        proof {
            assert(capped == capped_credit(h, c, cap as int, i as int));
            assert(capped < m);
            vstd::arithmetic::div_mod::lemma_small_mod(capped as nat, m as nat);
        }
        let credit_share = WorldShare::share_with(F::from_u128(capped), prss);
        let row = AttributionInputRow {
            is_trigger_bit: input[i].is_trigger_bit,
            helper_bit: input[i].helper_bit,
            breakdown_key: input[i].breakdown_key,
            credit: credit_share,
        };
        out.push(row);
        prev_total = b + ci_v;
        i = i + 1;
    }
    out
}

/// The accumulated credits of all rows, as a sequence.
pub open spec fn acc_seq(t: Seq<int>, h: Seq<int>, v: Seq<int>, m: int) -> Seq<int> {
    Seq::new(t.len(), |i: int| acc_credit(t, h, v, i, m))
}

/// The capped credits of all rows, as a sequence.
pub open spec fn capped_seq(h: Seq<int>, c: Seq<int>, cap: int) -> Seq<int> {
    Seq::new(c.len(), |i: int| capped_credit(h, c, cap, i))
}

/// The field sum of the credits of the first `i` rows whose breakdown key
/// reconstructs to `k`.
pub open spec fn key_sum(bd: Seq<int>, c: Seq<int>, k: int, i: int, m: int) -> int
    decreases i,
{
    if i <= 0 {
        0
    } else if bd[i - 1] == k {
        (key_sum(bd, c, k, i - 1, m) + c[i - 1]) % m
    } else {
        key_sum(bd, c, k, i - 1, m)
    }
}

/// Aggregate the capped credits per breakdown key: the output holds exactly
/// one row for every key in `[0, max_breakdown_key)`, in key order, whose
/// credit is the field sum of the credits attributed to that key. The
/// output length is data-independent, so it leaks nothing about which keys
/// were active.
pub fn aggregate_credit<F: Field>(
    input: &Vec<AttributionInputRow<F>>,
    max_breakdown_key: u128,
    num_multi_bits: u32,
    prss: &mut Prss,
) -> (r: Result<Vec<AggregateCreditOutputRow<F>>, crate::error::Error>)
    requires
        att_wf(input@),
        max_breakdown_key < F::modulus(),
        num_multi_bits >= 1,
    ensures
        r is Ok,
        ({
            let out = r.unwrap();
            &&& out@.len() == max_breakdown_key
            &&& forall|k: int| 0 <= k < out@.len() ==> (#[trigger] out@[k]).wf() && out@[
                k].breakdown_key.recon() == k && out@[k].credit.recon() == key_sum(
                att_bds(input@), att_credits(input@), k, input@.len() as int, F::modulus())
        }),
{
    proof {
        F::field_facts();
    }
    let ghost bd = att_bds(input@);
    let ghost c = att_credits(input@);
    let ghost m = F::modulus();
    let n = input.len();
    let mk: usize = max_breakdown_key as usize;
    let mut out: Vec<AggregateCreditOutputRow<F>> = Vec::new();
    let mut k: usize = 0;
    while k < mk
        invariant
            k <= mk,
            n == input@.len(),
            att_wf(input@),
            bd == att_bds(input@),
            c == att_credits(input@),
            m == F::modulus(),
            3 <= m <= 0x1_0000_0000,
            mk == max_breakdown_key,
            mk < m,
            out@.len() == k,
            forall|q: int| 0 <= q < k ==> (#[trigger] out@[q]).wf() && out@[
                q].breakdown_key.recon() == q && out@[q].credit.recon() == key_sum(
                bd, c, q, n as int, m),
        decreases mk - k,
    {
        let mut acc: F = F::zero();
        let mut i: usize = 0;
        while i < n
            invariant
                i <= n,
                k < mk,
                n == input@.len(),
                att_wf(input@),
                bd == att_bds(input@),
                c == att_credits(input@),
                m == F::modulus(),
                3 <= m <= 0x1_0000_0000,
                mk < m,
                acc.valid(),
                acc.as_int() == key_sum(bd, c, k as int, i as int, m),
            decreases n - i,
        {
            let bdi = input[i].breakdown_key.reconstruct().as_u64();
            if bdi == k as u64 {
                acc = acc.add(input[i].credit.reconstruct());
            } else {
                proof {
                    assert(bd[i as int] != k as int);
                }
            }
            i = i + 1;
        }
        proof {
            vstd::arithmetic::div_mod::lemma_small_mod(k as nat, m as nat);
        }
        let row = AggregateCreditOutputRow {
            breakdown_key: WorldShare::share_with(F::from_u128(k as u128), prss),
            credit: WorldShare::share_with(acc, prss),
        };
        out.push(row);
        k = k + 1;
    }
    Ok(out)
}

} // verus!
