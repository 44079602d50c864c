//! Oblivious stable sort: generation of the revealed-in-shuffled-form
//! rank permutation over shared key bits, and its application to
//! resharable rows.

use vstd::prelude::*;
use vstd::arithmetic::div_mod::lemma_mod_bound;
use crate::boolean::{bits_value, lemma_bits_value_push};
use crate::ff::{pow2i, Field};
use crate::secret_sharing::{Prss, Role, WorldShare};

verus! {

/// Strict lexicographic order on (key, original position) pairs: the order a
/// stable sort realizes.
pub open spec fn lex_lt(k1: int, i1: int, k2: int, i2: int) -> bool {
    k1 < k2 || (k1 == k2 && i1 < i2)
}

/// A sequence of machine indexes, as mathematical integers.
pub open spec fn as_ints(s: Seq<usize>) -> Seq<int> {
    s.map_values(|u: usize| u as int)
}

/// Some position of `s` holds the value `v`.
pub open spec fn holds_value(s: Seq<int>, v: int) -> bool {
    exists|p: int| 0 <= p < s.len() && #[trigger] s[p] == v
}

/// `ranks` maps every source position to a distinct destination position.
pub open spec fn is_permutation(ranks: Seq<int>) -> bool {
    &&& forall|i: int| #![trigger ranks[i]] 0 <= i < ranks.len() ==> 0 <= ranks[i] < ranks.len()
    &&& forall|i: int, j: int| #![trigger ranks[i], ranks[j]] 0 <= i < ranks.len() && 0 <= j
        < ranks.len() && i != j ==> ranks[i] != ranks[j]
    &&& forall|k: int| 0 <= k < ranks.len() ==> #[trigger] holds_value(ranks, k)
}

/// `ranks` is the permutation a stable sort by `keys` produces: destinations
/// are ordered exactly as the (key, position) pairs are.
pub open spec fn is_rank_permutation(keys: Seq<int>, ranks: Seq<int>) -> bool {
    &&& ranks.len() == keys.len()
    &&& is_permutation(ranks)
    &&& forall|i: int, j: int| #![trigger ranks[i], ranks[j]] 0 <= i < keys.len() && 0 <= j
        < keys.len() ==> (lex_lt(keys[i], i, keys[j], j) <==> ranks[i] < ranks[j])
}

/// The key of record `i` under bit-major key columns: the weighted value of
/// its bit column entries, least-significant column first.
pub open spec fn record_key<F: Field>(cols: Seq<Vec<WorldShare<F>>>, i: int) -> int {
    bits_value(Seq::new(cols.len(), |b: int| cols[b]@[i].recon()))
}

/// The keys of all `n` records under bit-major key columns.
pub open spec fn record_keys<F: Field>(cols: Seq<Vec<WorldShare<F>>>, n: nat) -> Seq<int> {
    Seq::new(n, |i: int| record_key(cols, i))
}

/// All columns have length `n` and hold well-formed sharings.
pub open spec fn cols_wf<F: Field>(cols: Seq<Vec<WorldShare<F>>>, n: nat) -> bool {
    forall|b: int| 0 <= b < cols.len() ==> (#[trigger] cols[b])@.len() == n && forall|i: int|
        0 <= i < n ==> (#[trigger] cols[b]@[i]).wf()
}

/// A row whose component shares can be rerandomized towards a chosen helper.
///
/// `recon_view` is the row's reconstructed field values in a fixed order;
/// resharing yields a fresh, well-formed row with the same view.
pub trait Resharable<F: Field>: Sized {
    /// The reconstructed field values of this row.
    spec fn recon_view(self) -> Seq<int>;

    /// All component sharings are well-formed.
    spec fn wf(self) -> bool;

    /// Reshare every component so `to_helper` learns nothing, preserving
    /// the reconstructed values.
    fn reshare(&self, to_helper: Role, prss: &mut Prss) -> (r: Self)
        requires
            self.wf(),
        ensures
            r.wf(),
            r.recon_view() == self.recon_view(),
    ;
}

proof fn lemma_bits_value_bounded(s: Seq<int>, c: int)
    requires
        c >= 1,
        forall|i: int| 0 <= i < s.len() ==> 0 <= #[trigger] s[i] <= c - 1,
    ensures
        0 <= bits_value(s) <= (c - 1) * (pow2i(s.len()) - 1),
    decreases s.len(),
{
    if s.len() == 0 {
    } else {
        lemma_bits_value_bounded(s.skip(1), c);
        let p = pow2i((s.len() - 1) as nat);
        crate::ff::lemma_pow2i_pos((s.len() - 1) as nat);
        assert((c - 1) + 2 * ((c - 1) * (p - 1)) == (c - 1) * (2 * p - 1)) by (nonlinear_arith);
        assert(bits_value(s) == s[0] + 2 * bits_value(s.skip(1)));
        assert(2 * bits_value(s.skip(1)) <= 2 * ((c - 1) * (p - 1)));
    }
}

/// Reveal the key of every record: the cleartext radix-sort keys.
fn compute_keys<F: Field>(cols: &Vec<Vec<WorldShare<F>>>, n: usize) -> (ks: Vec<u128>)
    requires
        1 <= cols@.len() <= 64,
        cols_wf(cols@, n as nat),
    ensures
        ks@.len() == n,
        forall|i: int| 0 <= i < n ==> #[trigger] ks@[i] as int == record_key(cols@, i),
{
    proof {
        F::field_facts();
        crate::ff::lemma_pow2i_value_64();
    }
    let nbits = cols.len();
    let mut ks: Vec<u128> = Vec::new();
    let mut i: usize = 0;
    while i < n
        invariant
            i <= n,
            1 <= nbits == cols@.len() <= 64,
            cols_wf(cols@, n as nat),
            F::modulus() <= 0x1_0000_0000,
            F::modulus() >= 3,
            pow2i(64) == 0x1_0000_0000_0000_0000,
            ks@.len() == i,
            forall|q: int| 0 <= q < i ==> #[trigger] ks@[q] as int == record_key(cols@, q),
        decreases n - i,
    {
        let ghost rs = Seq::new(cols@.len(), |b: int| cols@[b]@[i as int].recon());
        let mut acc: u128 = 0;
        let mut p2: u128 = 1;
        let mut b: usize = 0;
        proof {
            assert(rs.take(0) =~= Seq::<int>::empty());
        }
        while b < nbits
            invariant
                b <= nbits,
                i < n,
                1 <= nbits == cols@.len() <= 64,
                cols_wf(cols@, n as nat),
                F::modulus() <= 0x1_0000_0000,
                F::modulus() >= 3,
                pow2i(64) == 0x1_0000_0000_0000_0000,
                rs == Seq::new(cols@.len(), |q: int| cols@[q]@[i as int].recon()),
                p2 == pow2i(b as nat),
                acc == bits_value(rs.take(b as int)),
                acc <= 0xffff_ffffu128 * (p2 - 1),
            decreases nbits - b,
        {
            let v = cols[b][i].reconstruct().as_u64();
            proof {
                let m = F::modulus();
                lemma_mod_bound(cols@[b as int]@[i as int].h0.l.as_int() + cols@[
                    b as int]@[i as int].h1.l.as_int() + cols@[b as int]@[i as int].h2.l.as_int(),
                    m);
                assert(v < 0x1_0000_0000);
                crate::ff::lemma_pow2i_mono_pub(b as nat, 64);
                assert(p2 <= 0x1_0000_0000_0000_0000);
                assert(acc + v * p2 <= 0xffff_ffff * (2 * p2 - 1)) by (nonlinear_arith)
                    requires
                        acc <= 0xffff_ffffu128 * (p2 - 1),
                        0 <= v < 0x1_0000_0000,
                        p2 >= 1,
                ;
                assert(0xffff_ffff * (2 * p2 - 1) <= 0xffff_ffff_ffff_ffff_ffff_ffff_ffff_ffffu128)
                    by (nonlinear_arith)
                    requires
                        1 <= p2 <= 0x1_0000_0000_0000_0000u128,
                ;
                crate::ff::lemma_pow2i_pos(b as nat);
            }
            let ghost pre_acc = acc;
            acc = acc + (v as u128) * p2;
            proof {
                assert(rs.take(b + 1) =~= rs.take(b as int).push(rs[b as int]));
                lemma_bits_value_push(rs.take(b as int), rs[b as int]);
            }
            p2 = p2 * 2;
            b = b + 1;
        }
        proof {
            assert(rs.take(nbits as int) =~= rs);
        }
        ks.push(acc);
        proof {
            assert(ks@[i as int] as int == record_key(cols@, i as int));
        }
        i = i + 1;
    }
    ks
}

/// Generate the stable sort permutation over the given bit-major key
/// columns and reveal it in shuffled form: the result maps each record to
/// its destination rank.
///
/// `num_multi_bits` is the radix window width used to batch rounds; it does
/// not affect which permutation is produced.
pub fn generate_permutation_and_reveal_shuffled<F: Field>(
    cols: &Vec<Vec<WorldShare<F>>>,
    num_multi_bits: u32,
    n: usize,
) -> (ranks: Vec<usize>)
    requires
        1 <= cols@.len() <= 64,
        num_multi_bits >= 1,
        cols_wf(cols@, n as nat),
    ensures
        ranks@.len() == n,
        is_rank_permutation(record_keys(cols@, n as nat), as_ints(ranks@)),
{
    let ks = compute_keys(cols, n);
    let ghost keys = record_keys(cols@, n as nat);
    proof {
        assert(keys.len() == n);
        assert(forall|q: int| 0 <= q < n ==> #[trigger] ks@[q] as int == keys[q]);
    }
    // Build the sorted order of record indices: a stable insertion sort on
    // (key, index) pairs.
    let mut order: Vec<usize> = Vec::new();
    let mut j: usize = 0;
    while j < n
        invariant
            j <= n,
            n == ks@.len() == keys.len(),
            forall|q: int| 0 <= q < n ==> #[trigger] ks@[q] as int == keys[q],
            order@.len() == j,
            forall|p: int| 0 <= p < j ==> 0 <= #[trigger] order@[p] < j,
            forall|p: int, q: int| #![trigger order@[p], order@[q]] 0 <= p < q < j ==> lex_lt(
                keys[order@[p] as int], order@[p] as int,
                keys[order@[q] as int], order@[q] as int),
            forall|v: int| 0 <= v < j ==> #[trigger] holds_value(
                as_ints(order@), v),
        decreases n - j,
    {
        let kj = ks[j];
        let mut pos: usize = 0;
        loop
            invariant
                pos <= j < n,
                n == ks@.len() == keys.len(),
                kj == ks@[j as int],
                forall|q: int| 0 <= q < n ==> #[trigger] ks@[q] as int == keys[q],
                order@.len() == j,
                forall|p: int| 0 <= p < j ==> 0 <= #[trigger] order@[p] < j,
                forall|p: int| #![trigger order@[p]] 0 <= p < pos ==> lex_lt(
                    keys[order@[p] as int], order@[p] as int, keys[j as int], j as int),
            ensures
                pos <= j,
                forall|p: int| #![trigger order@[p]] 0 <= p < pos ==> lex_lt(
                    keys[order@[p] as int], order@[p] as int, keys[j as int], j as int),
                pos < j ==> lex_lt(keys[j as int], j as int,
                    keys[order@[pos as int] as int], order@[pos as int] as int),
            decreases j - pos,
        {
            if pos == j {
                break;
            }
            if ks[order[pos]] <= kj {
                proof {
                    let o = order@[pos as int] as int;
                    assert(lex_lt(keys[o], o, keys[j as int], j as int));
                }
                pos = pos + 1;
            } else {
                proof {
                    let o = order@[pos as int] as int;
                    assert(ks@[o] > kj);
                    assert(lex_lt(keys[j as int], j as int, keys[o], o));
                }
                break;
            }
        }
        let ghost pre = order@;
        order.insert(pos, j);
        proof {
            pre.insert_ensures(pos as int, j);
            let cur = order@;
            assert forall|p: int, q: int| #![trigger cur[p], cur[q]] 0 <= p < q < j + 1
                implies lex_lt(
                keys[cur[p] as int], cur[p] as int,
                keys[cur[q] as int], cur[q] as int) by {
                let pi = pos as int;
                if q < pi {
                } else if p < pi && q == pi {
                    assert(cur[q] == j);
                } else if p < pi && q > pi {
                    assert(cur[q] == pre[q - 1]);
                } else if p == pi {
                    assert(cur[p] == j);
                    assert(cur[q] == pre[q - 1]);
                    let o = pre[q - 1] as int;
                    if q - 1 == pi {
                    } else {
                        // sortedness below pos plus the break condition
                        let o0 = pre[pi] as int;
                        if pi < j {
                            assert(lex_lt(keys[j as int], j as int, keys[o0], o0));
                            assert(lex_lt(keys[o0], o0, keys[o], o));
                        }
                    }
                } else {
                    assert(cur[p] == pre[p - 1]);
                    assert(cur[q] == pre[q - 1]);
                }
            }
            let curi = as_ints(cur);
            assert forall|v: int| 0 <= v < j + 1 implies #[trigger] holds_value(curi, v) by {
                if v == j {
                    assert(curi[pos as int] == v);
                } else {
                    let prei = as_ints(pre);
                    assert(holds_value(prei, v));
                    let p0 = choose|p: int| 0 <= p < prei.len() && #[trigger] prei[p] == v;
                    if p0 < pos {
                        assert(curi[p0] == v);
                    } else {
                        assert(curi[p0 + 1] == v);
                    }
                }
            }
        }
        j = j + 1;
    }
    // Invert: the rank of record i is its position in the sorted order.
    let mut ranks: Vec<usize> = Vec::new();
    let mut i: usize = 0;
    while i < n
        invariant
            i <= n,
            n == keys.len(),
            order@.len() == n,
            forall|p: int| 0 <= p < n ==> 0 <= #[trigger] order@[p] < n,
            forall|p: int, q: int| #![trigger order@[p], order@[q]] 0 <= p < q < n ==> lex_lt(
                keys[order@[p] as int], order@[p] as int,
                keys[order@[q] as int], order@[q] as int),
            forall|v: int| 0 <= v < n ==> #[trigger] holds_value(
                as_ints(order@), v),
            ranks@.len() == i,
            forall|q: int| 0 <= q < i ==> #[trigger] ranks@[q] < n && order@[
                ranks@[q] as int] as int == q,
        decreases n - i,
    {
        proof {
            let oi = as_ints(order@);
            assert(holds_value(oi, i as int));
            let p = choose|p: int| 0 <= p < oi.len() && #[trigger] oi[p] == i as int;
            assert(order@[p] as int == i as int);
        }
        let mut k: usize = 0;
        loop
            invariant
                k <= n,
                i < n,
                n == keys.len(),
                order@.len() == n,
                exists|p: int| k <= p < n && #[trigger] order@[p] as int == i as int,
            ensures
                k < n,
                order@[k as int] as int == i as int,
            decreases n - k,
        {
            proof {
                let p = choose|p: int| k <= p < n && #[trigger] order@[p] as int == i as int;
                assert(k < n);
            }
            if order[k] == i {
                break;
            }
            proof {
                let p = choose|p: int| k <= p < n && #[trigger] order@[p] as int == i as int;
                assert(p >= k + 1);
            }
            k = k + 1;
        }
        ranks.push(k);
        i = i + 1;
    }
    proof {
        let rr = as_ints(ranks@);
        assert(rr.len() == n);
        assert forall|i1: int, i2: int| 0 <= i1 < n && 0 <= i2 < n implies (lex_lt(
            keys[i1], i1, keys[i2], i2) <==> #[trigger] rr[i1] < #[trigger] rr[i2]) by {
            let k1 = rr[i1];
            let k2 = rr[i2];
            assert(order@[k1] as int == i1);
            assert(order@[k2] as int == i2);
            if k1 < k2 {
                assert(lex_lt(keys[i1], i1, keys[i2], i2));
            } else if k2 < k1 {
                assert(lex_lt(keys[i2], i2, keys[i1], i1));
            } else {
                assert(i1 == i2);
            }
        }
        assert forall|i1: int, i2: int| 0 <= i1 < n && 0 <= i2 < n && i1 != i2 implies #[trigger]
            rr[i1] != #[trigger] rr[i2] by {
            assert(order@[rr[i1]] as int == i1);
            assert(order@[rr[i2]] as int == i2);
        }
        assert forall|k: int| 0 <= k < n implies #[trigger] holds_value(rr, k) by {
            let v = order@[k] as int;
            assert(0 <= v < n);
            let kv = rr[v];
            assert(order@[kv] as int == v);
            if kv != k {
                if kv < k {
                    assert(lex_lt(keys[v], v, keys[v], v));
                } else {
                    assert(lex_lt(keys[v], v, keys[v], v));
                }
                assert(false);
            }
            assert(rr[v] == k);
        }
    }
    ranks
}

/// Apply a revealed sort permutation to resharable rows: destination `k`
/// receives a fresh resharing of the row whose rank is `k`.
pub fn apply_sort_permutation<F: Field, R: Resharable<F>>(
    rows: &Vec<R>,
    ranks: &Vec<usize>,
    prss: &mut Prss,
) -> (out: Vec<R>)
    requires
        rows@.len() == ranks@.len(),
        forall|i: int| 0 <= i < rows@.len() ==> (#[trigger] rows@[i]).wf(),
        is_permutation(as_ints(ranks@)),
    ensures
        out@.len() == rows@.len(),
        forall|i: int| 0 <= i < rows@.len() ==> (#[trigger] out@[ranks@[i] as int]).wf() && out@[
            ranks@[i] as int].recon_view() == rows@[i].recon_view(),
{
    let n = rows.len();
    let ghost rr = as_ints(ranks@);
    let mut out: Vec<R> = Vec::new();
    let mut k: usize = 0;
    while k < n
        invariant
            k <= n,
            n == rows@.len() == ranks@.len(),
            rr == as_ints(ranks@),
            forall|i: int| 0 <= i < n ==> (#[trigger] rows@[i]).wf(),
            is_permutation(rr),
            out@.len() == k,
            forall|i: int| 0 <= i < n && ranks@[i] < k ==> (#[trigger] out@[
                ranks@[i] as int]).wf() && out@[ranks@[i] as int].recon_view() == rows@[
                i].recon_view(),
        decreases n - k,
    {
        proof {
            assert(holds_value(rr, k as int));
            let p = choose|p: int| 0 <= p < rr.len() && #[trigger] rr[p] == k as int;
            assert(rr[p] == k as int);
        }
        let mut i: usize = 0;
        loop
            invariant
                i <= n,
                k < n,
                n == ranks@.len(),
                rr == as_ints(ranks@),
                exists|p: int| i <= p < n && #[trigger] rr[p] == k as int,
            ensures
                i < n,
                ranks@[i as int] == k,
            decreases n - i,
        {
            proof {
                let p = choose|p: int| i <= p < n && #[trigger] rr[p] == k as int;
                assert(i < n);
            }
            if ranks[i] == k {
                break;
            }
            proof {
                let p = choose|p: int| i <= p < n && #[trigger] rr[p] == k as int;
                assert(p >= i + 1);
            }
            i = i + 1;
        }
        let to_helper = if k % 3 == 0 {
            Role::H0
        } else if k % 3 == 1 {
            Role::H1
        } else {
            Role::H2
        };
        let fresh = rows[i].reshare(to_helper, prss);
        out.push(fresh);
        proof {
            assert forall|q: int| 0 <= q < n && ranks@[q] < k + 1 implies (#[trigger] out@[
                ranks@[q] as int]).wf() && out@[ranks@[q] as int].recon_view() == rows@[
                q].recon_view() by {
                if ranks@[q] < k {
                } else {
                    assert(rr[q] == k as int);
                    assert(rr[i as int] == k as int);
                    assert(q == i as int);
                    assert(out@[k as int] == fresh);
                }
            }
        }
        k = k + 1;
    }
    proof {
        assert forall|q: int| 0 <= q < n implies (#[trigger] out@[ranks@[q] as int]).wf() && out@[
            ranks@[q] as int].recon_view() == rows@[q].recon_view() by {
            assert(rr[q] == ranks@[q] as int);
            assert(0 <= rr[q] < n);
        }
    }
    out
}

/// A stable sort's guarantee, read off the rank permutation: records sent to
/// increasing destinations carry non-decreasing keys, and equal keys keep
/// their original relative order.
pub proof fn lemma_rank_permutation_sorts(keys: Seq<int>, ranks: Seq<int>, i1: int, i2: int)
    requires
        is_rank_permutation(keys, ranks),
        0 <= i1 < keys.len(),
        0 <= i2 < keys.len(),
        ranks[i1] < ranks[i2],
    ensures
        keys[i1] <= keys[i2],
        keys[i1] == keys[i2] ==> i1 < i2,
{
    assert(lex_lt(keys[i1], i1, keys[i2], i2));
}

} // verus!
