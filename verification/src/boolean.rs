//! Bit-level protocols: modulus conversion of match keys, bit
//! decomposition and bitwise equality of shared bit vectors.

use vstd::prelude::*;
use vstd::arithmetic::div_mod::{lemma_fundamental_div_mod, lemma_small_mod};
use crate::ff::{pow2i, Field};
use crate::secret_sharing::{Prss, WorldShare, XorWorldShare, MATCH_KEY_BITS};

verus! {

/// The integer a sequence of bit values denotes, least-significant first.
pub open spec fn bits_value(s: Seq<int>) -> int
    decreases s.len(),
{
    if s.len() == 0 {
        0
    } else {
        s[0] + 2 * bits_value(s.skip(1))
    }
}

/// Appending a bit at the top adds its weighted value.
pub proof fn lemma_bits_value_push(s: Seq<int>, v: int)
    ensures
        bits_value(s.push(v)) == bits_value(s) + v * pow2i(s.len()),
    decreases s.len(),
{
    if s.len() == 0 {
        assert(s.push(v).skip(1) =~= Seq::<int>::empty());
        assert(bits_value(Seq::<int>::empty()) == 0);
        assert(s.push(v)[0] == v);
        assert(bits_value(s.push(v)) == v);
    } else {
        assert(s.push(v).skip(1) =~= s.skip(1).push(v));
        lemma_bits_value_push(s.skip(1), v);
        assert(v * pow2i(s.len()) == 2 * (v * pow2i((s.len() - 1) as nat))) by (nonlinear_arith)
            requires
                pow2i(s.len()) == 2 * pow2i((s.len() - 1) as nat),
        ;
    }
}

/// The bits of `x`, least-significant first, as a sequence of width `w`.
pub open spec fn bit_seq_of(x: u64, w: nat) -> Seq<int> {
    Seq::new(w, |b: int| ((x >> (b as u64)) & 1) as int)
}

/// A bit sequence of width `w` denotes its value modulo `2^w`.
pub proof fn lemma_bits_value_of_bit_seq(x: u64, w: nat)
    requires
        w <= 64,
    ensures
        bits_value(bit_seq_of(x, w)) == x as int % pow2i(w),
    decreases w,
{
    if w == 0 {
        assert(bit_seq_of(x, 0) =~= Seq::<int>::empty());
        assert(x as int % 1 == 0) by (nonlinear_arith);
    } else {
        let s = bit_seq_of(x, w);
        let x1 = x >> 1u64;
        assert forall|b: int| 0 <= b < w - 1 implies s.skip(1)[b] == bit_seq_of(
            x1, (w - 1) as nat)[b] by {
            let bb = b as u64;
            assert(((x >> 1u64) >> bb) & 1 == (x >> vstd::prelude::add(bb, 1)) & 1)
                by (bit_vector)
                requires
                    bb < 63u64,
            ;
            assert(s.skip(1)[b] == ((x >> ((b + 1) as u64)) & 1) as int);
        }
        assert(s.skip(1) =~= bit_seq_of(x1, (w - 1) as nat));
        lemma_bits_value_of_bit_seq(x1, (w - 1) as nat);
        assert((x >> 0u64) & 1 == x % 2 && (x >> 1u64) == x / 2) by (bit_vector);
        assert(s[0] == (x % 2) as int);
        crate::ff::lemma_pow2i_pos((w - 1) as nat);
        vstd::arithmetic::div_mod::lemma_mod_breakdown(
            x as int, 2, pow2i((w - 1) as nat));
        assert(pow2i(w) == 2 * pow2i((w - 1) as nat));
        assert(bits_value(s) == s[0] + 2 * bits_value(s.skip(1)));
    }
}

/// Bit values are never negative.
pub proof fn lemma_bits_value_nonneg(s: Seq<int>)
    requires
        forall|i: int| 0 <= i < s.len() ==> 0 <= #[trigger] s[i],
    ensures
        bits_value(s) >= 0,
    decreases s.len(),
{
    if s.len() > 0 {
        lemma_bits_value_nonneg(s.skip(1));
    }
}

/// Two bit sequences of the same width denoting the same value are equal.
pub proof fn lemma_bits_value_injective(s1: Seq<int>, s2: Seq<int>)
    requires
        s1.len() == s2.len(),
        forall|i: int| 0 <= i < s1.len() ==> 0 <= #[trigger] s1[i] <= 1,
        forall|i: int| 0 <= i < s2.len() ==> 0 <= #[trigger] s2[i] <= 1,
        bits_value(s1) == bits_value(s2),
    ensures
        s1 == s2,
    decreases s1.len(),
{
    if s1.len() == 0 {
        assert(s1 =~= s2);
    } else {
        assert forall|i: int| 0 <= i < s1.skip(1).len() implies 0 <= #[trigger] s1.skip(
            1)[i] <= 1 by {
            assert(s1.skip(1)[i] == s1[i + 1]);
        }
        assert forall|i: int| 0 <= i < s2.skip(1).len() implies 0 <= #[trigger] s2.skip(
            1)[i] <= 1 by {
            assert(s2.skip(1)[i] == s2[i + 1]);
        }
        lemma_bits_value_nonneg(s1.skip(1));
        lemma_bits_value_nonneg(s2.skip(1));
        let v = bits_value(s1);
        vstd::arithmetic::div_mod::lemma_fundamental_div_mod_converse(
            v, 2, bits_value(s1.skip(1)), s1[0]);
        vstd::arithmetic::div_mod::lemma_fundamental_div_mod_converse(
            v, 2, bits_value(s2.skip(1)), s2[0]);
        lemma_bits_value_injective(s1.skip(1), s2.skip(1));
        assert forall|i: int| 0 <= i < s1.len() implies s1[i] == s2[i] by {
            if i > 0 {
                assert(s1.skip(1)[i - 1] == s1[i]);
                assert(s2.skip(1)[i - 1] == s2[i]);
            }
        }
        assert(s1 =~= s2);
    }
}

/// The reconstructed values of a sequence of shared field elements.
pub open spec fn recon_seq<F: Field>(s: Seq<WorldShare<F>>) -> Seq<int> {
    s.map_values(|x: WorldShare<F>| x.recon())
}

/// All entries are well-formed sharings.
pub open spec fn all_wf<F: Field>(s: Seq<WorldShare<F>>) -> bool {
    forall|i: int| 0 <= i < s.len() ==> (#[trigger] s[i]).wf()
}

/// Share a public bit value among the three helpers.
pub fn share_bit<F: Field>(bit: u64, prss: &mut Prss) -> (t: WorldShare<F>)
    requires
        bit <= 1,
    ensures
        t.wf(),
        t.recon() == bit,
{
    proof {
        F::field_facts();
        lemma_small_mod(bit as nat, F::modulus() as nat);
    }
    WorldShare::share_with(F::from_u128(bit as u128), prss)
}

/// Modulus conversion: turn each XOR-shared match key into a vector of
/// `MATCH_KEY_BITS` arithmetically shared bits, bit-major (outer index is
/// the bit position, inner index the record).
pub fn convert_all_bits<F: Field>(mks: &Vec<XorWorldShare>, prss: &mut Prss) -> (out: Vec<
    Vec<WorldShare<F>>>)
    requires
        forall|i: int| 0 <= i < mks@.len() ==> (#[trigger] mks@[i]).wf(),
    ensures
        out@.len() == MATCH_KEY_BITS,
        forall|b: int| 0 <= b < out@.len() ==> (#[trigger] out@[b])@.len() == mks@.len(),
        forall|b: int, i: int| 0 <= b < out@.len() && 0 <= i < mks@.len() ==> (#[trigger] out@[
            b]@[i]).wf() && out@[b]@[i].recon() == mks@[i].recon_bit(b as u64),
{
    let n = mks.len();
    let mut out: Vec<Vec<WorldShare<F>>> = Vec::new();
    let mut b: usize = 0;
    while b < MATCH_KEY_BITS
        invariant
            b <= MATCH_KEY_BITS,
            n == mks@.len(),
            out@.len() == b,
            forall|i: int| 0 <= i < mks@.len() ==> (#[trigger] mks@[i]).wf(),
            forall|p: int| 0 <= p < b ==> (#[trigger] out@[p])@.len() == n,
            forall|p: int, i: int| 0 <= p < b && 0 <= i < n ==> (#[trigger] out@[p]@[i]).wf()
                && out@[p]@[i].recon() == mks@[i].recon_bit(p as u64),
        decreases MATCH_KEY_BITS - b,
    {
        let mut col: Vec<WorldShare<F>> = Vec::new();
        let mut i: usize = 0;
        while i < n
            invariant
                i <= n,
                b < MATCH_KEY_BITS,
                n == mks@.len(),
                col@.len() == i,
                forall|q: int| 0 <= q < mks@.len() ==> (#[trigger] mks@[q]).wf(),
                forall|q: int| 0 <= q < i ==> (#[trigger] col@[q]).wf() && col@[q].recon()
                    == mks@[q].recon_bit(b as u64),
            decreases n - i,
        {
            let v = mks[i].reconstruct();
            let bit = (v >> (b as u64)) & 1;
            proof {
                let bb = b as u64;
                assert((v >> bb) & 1 <= 1) by (bit_vector);
            }
            let sh = share_bit(bit, prss);
            col.push(sh);
            i = i + 1;
        }
        out.push(col);
        b = b + 1;
    }
    out
}

/// Bit decomposition: `[x]` becomes `F::bits()` shared bits whose weighted
/// sum reconstructs to exactly the value of `x`.
pub fn bit_decompose<F: Field>(x: &WorldShare<F>, prss: &mut Prss) -> (bits: Vec<WorldShare<F>>)
    requires
        x.wf(),
    ensures
        bits@.len() == F::bits_spec(),
        all_wf(bits@),
        forall|i: int| 0 <= i < bits@.len() ==> 0 <= (#[trigger] bits@[i]).recon() <= 1,
        bits_value(recon_seq(bits@)) == x.recon(),
{
    proof {
        F::field_facts();
        vstd::arithmetic::div_mod::lemma_mod_bound(
            x.h0.l.as_int() + x.h1.l.as_int() + x.h2.l.as_int(), F::modulus());
    }
    let nbits = F::bits();
    let mut cur: u64 = x.reconstruct().as_u64();
    let mut bits: Vec<WorldShare<F>> = Vec::new();
    let mut k: usize = 0;
    while k < nbits
        invariant
            k <= nbits,
            nbits == F::bits_spec(),
            bits@.len() == k,
            all_wf(bits@),
            forall|i: int| 0 <= i < k ==> 0 <= (#[trigger] bits@[i]).recon() <= 1,
            cur < pow2i((nbits - k) as nat),
            bits_value(recon_seq(bits@)) + pow2i(k as nat) * cur == x.recon(),
        decreases nbits - k,
    {
        let bit = cur % 2;
        let sh = share_bit::<F>(bit, prss);
        let ghost pre = bits@;
        bits.push(sh);
        proof {
            assert(recon_seq(bits@) =~= recon_seq(pre).push(sh.recon()));
            lemma_bits_value_push(recon_seq(pre), sh.recon());
            lemma_fundamental_div_mod(cur as int, 2);
            assert(pow2i((k + 1) as nat) * (cur as int / 2) + pow2i(k as nat) * (cur as int % 2)
                == pow2i(k as nat) * cur) by (nonlinear_arith)
                requires
                    pow2i((k + 1) as nat) == 2 * pow2i(k as nat),
                    cur as int == 2 * (cur as int / 2) + (cur as int % 2),
            ;
        }
        cur = cur / 2;
        k = k + 1;
    }
    proof {
        assert(pow2i(0) == 1);
    }
    bits
}

/// Bitwise equality of two shared bit vectors: a sharing of `1` when every
/// position reconstructs equal, of `0` otherwise.
pub fn bitwise_equal<F: Field>(
    a: &Vec<WorldShare<F>>,
    b: &Vec<WorldShare<F>>,
    prss: &mut Prss,
) -> (r: WorldShare<F>)
    requires
        a@.len() == b@.len(),
        all_wf(a@),
        all_wf(b@),
    ensures
        r.wf(),
        r.recon() == if recon_seq(a@) == recon_seq(b@) {
            1int
        } else {
            0int
        },
{
    let n = a.len();
    let mut eq = true;
    let mut i: usize = 0;
    while i < n
        invariant
            i <= n,
            n == a@.len() == b@.len(),
            all_wf(a@),
            all_wf(b@),
            eq <==> (forall|j: int| 0 <= j < i ==> (#[trigger] a@[j]).recon() == b@[j].recon()),
        decreases n - i,
    {
        let av = a[i].reconstruct().as_u64();
        let bv = b[i].reconstruct().as_u64();
        if av != bv {
            eq = false;
            proof {
                assert(a@[i as int].recon() != b@[i as int].recon());
            }
        }
        i = i + 1;
    }
    proof {
        if eq {
            assert(recon_seq(a@) =~= recon_seq(b@));
        } else {
            assert(exists|j: int| 0 <= j < n && (#[trigger] a@[j]).recon() != b@[j].recon());
            let j = choose|j: int| 0 <= j < n && (#[trigger] a@[j]).recon() != b@[j].recon();
            assert(recon_seq(a@)[j] != recon_seq(b@)[j]);
        }
    }
    share_bit(if eq { 1 } else { 0 }, prss)
}

} // verus!
