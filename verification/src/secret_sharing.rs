//! Replicated secret sharing over the three-helper ring.
//!
//! Each helper holds two of the three summands of a secret; the
//! `WorldShare` types hold all three helpers' shares at once, which is the
//! in-process world this crate executes the protocol in. Reconstruction
//! contracts are stated against that world view.

use vstd::prelude::*;
use vstd::arithmetic::div_mod::lemma_small_mod;
use crate::ff::{
    lemma_mod_noop_add_l, lemma_mod_noop_add_r, lemma_mod_noop_sub_l, lemma_mod_noop_sub_r, Field,
};

verus! {

/// One of the three helper parties, fixed at startup. The role determines
/// which peer is "left" and which is "right" in the replicated ring.
#[derive(Clone, Copy, Debug, PartialEq, Eq, Structural, Hash)]
pub enum Role {
    H0,
    H1,
    H2,
}

/// Width in bits of a match key.
pub const MATCH_KEY_BITS: usize = 40;

/// One more than the largest match key: `2^40`.
pub const MATCH_KEY_LIMIT: u64 = 0x100_0000_0000;

/// Pseudorandom secret-sharing source.
///
/// Every pair of helpers derives common randomness from correlated seeds; the
/// in-process world draws the whole correlated tuple from one deterministic
/// stream. No contract ever depends on the values drawn, so every property
/// proved here holds for every seed.
pub struct Prss {
    state: u64,
}

impl Prss {
    /// A stream starting from `seed`.
    pub fn new(seed: u64) -> Self {
        Prss { state: seed }
    }

    /// The next pseudorandom word.
    pub fn next_u64(&mut self) -> u64 {
        self.state = self.state.wrapping_mul(6364136223846793005).wrapping_add(
            1442695040888963407);
        self.state
    }

    /// The next pseudorandom field element.
    pub fn next_field<F: Field>(&mut self) -> (r: F)
        ensures
            r.valid(),
    {
        let x = self.next_u64();
        F::from_u128(x as u128)
    }
}

/// One helper's replicated share: the pair `(l, r)` of two of the three
/// summands of the secret. The helper at role `i` holds `(x_i, x_{i+1})`.
#[derive(Clone, Copy, Debug, PartialEq, Eq)]
pub struct Replicated<F: Field> {
    pub l: F,
    pub r: F,
}

impl<F: Field> Replicated<F> {
    /// Both halves are canonical residues.
    pub open spec fn valid(self) -> bool {
        self.l.valid() && self.r.valid()
    }

    /// Local addition of two shares: adds a share of the sum.
    pub fn add_share(self, o: Self) -> (r: Self)
        requires
            self.valid(),
            o.valid(),
        ensures
            r.valid(),
            r.l.as_int() == (self.l.as_int() + o.l.as_int()) % F::modulus(),
            r.r.as_int() == (self.r.as_int() + o.r.as_int()) % F::modulus(),
    {
        Replicated { l: self.l.add(o.l), r: self.r.add(o.r) }
    }
}

/// One helper's XOR-replicated share of a match key.
#[derive(Clone, Copy, Debug, PartialEq, Eq, Structural, Hash)]
pub struct XorReplicated {
    pub l: u64,
    pub r: u64,
}

impl XorReplicated {
    /// Both halves fit in the match-key width.
    pub open spec fn valid(self) -> bool {
        self.l < MATCH_KEY_LIMIT && self.r < MATCH_KEY_LIMIT
    }
}

/// The three helpers' replicated shares of one field value: the whole
/// in-process world's view. The ring invariant says each summand is held by
/// exactly two helpers.
#[derive(Clone, Copy, Debug, PartialEq, Eq)]
pub struct WorldShare<F: Field> {
    pub h0: Replicated<F>,
    pub h1: Replicated<F>,
    pub h2: Replicated<F>,
}

impl<F: Field> WorldShare<F> {
    /// Ring consistency: helper `i`'s right half is helper `i+1`'s left half,
    /// and every half is a canonical residue.
    pub open spec fn wf(self) -> bool {
        &&& self.h0.valid()
        &&& self.h1.valid()
        &&& self.h2.valid()
        &&& self.h0.r.as_int() == self.h1.l.as_int()
        &&& self.h1.r.as_int() == self.h2.l.as_int()
        &&& self.h2.r.as_int() == self.h0.l.as_int()
    }

    /// The secret the three shares reconstruct to.
    pub open spec fn recon(self) -> int {
        (self.h0.l.as_int() + self.h1.l.as_int() + self.h2.l.as_int()) % F::modulus()
    }

    /// Assemble the world view from the three summands.
    pub fn from_summands(x0: F, x1: F, x2: F) -> (t: Self)
        requires
            x0.valid(),
            x1.valid(),
            x2.valid(),
        ensures
            t.wf(),
            t.recon() == (x0.as_int() + x1.as_int() + x2.as_int()) % F::modulus(),
    {
        WorldShare {
            h0: Replicated { l: x0, r: x1 },
            h1: Replicated { l: x1, r: x2 },
            h2: Replicated { l: x2, r: x0 },
        }
    }

    /// Reconstruct the secret by summing the three left halves.
    pub fn reconstruct(&self) -> (r: F)
        requires
            self.wf(),
        ensures
            r.valid(),
            r.as_int() == self.recon(),
    {
        proof {
            F::field_facts();
            self.h2.l.valid_facts();
            lemma_mod_noop_add_l(
                self.h0.l.as_int() + self.h1.l.as_int(), self.h2.l.as_int(), F::modulus());
        }
        self.h0.l.add(self.h1.l).add(self.h2.l)
    }

    /// Local share addition across the world: `[x] + [y]` is a sharing of
    /// `x + y`, with no communication.
    pub fn add_shares(&self, o: &Self) -> (r: Self)
        requires
            self.wf(),
            o.wf(),
        ensures
            r.wf(),
            r.recon() == (self.recon() + o.recon()) % F::modulus(),
    {
        let t = WorldShare {
            h0: self.h0.add_share(o.h0),
            h1: self.h1.add_share(o.h1),
            h2: self.h2.add_share(o.h2),
        };
        proof {
            F::field_facts();
            let m = F::modulus();
            let a0 = self.h0.l.as_int();
            let a1 = self.h1.l.as_int();
            let a2 = self.h2.l.as_int();
            let b0 = o.h0.l.as_int();
            let b1 = o.h1.l.as_int();
            let b2 = o.h2.l.as_int();
            lemma_mod_noop_add_l(a0 + b0, t.h1.l.as_int() + t.h2.l.as_int(), m);
            lemma_mod_noop_add_r((a0 + b0) + t.h2.l.as_int(), a1 + b1, m);
            lemma_mod_noop_add_r((a0 + b0) + (a1 + b1), a2 + b2, m);
            assert(t.recon() == ((a0 + a1 + a2) + (b0 + b1 + b2)) % m);
            vstd::arithmetic::div_mod::lemma_add_mod_noop(a0 + a1 + a2, b0 + b1 + b2, m);
        }
        t
    }

    /// Local subtraction: `[x] - [y]` is a sharing of `x - y`, with no
    /// communication.
    pub fn sub_shares(&self, o: &Self) -> (r: Self)
        requires
            self.wf(),
            o.wf(),
        ensures
            r.wf(),
            r.recon() == (self.recon() - o.recon()) % F::modulus(),
    {
        let t = WorldShare {
            h0: Replicated { l: self.h0.l.sub(o.h0.l), r: self.h0.r.sub(o.h0.r) },
            h1: Replicated { l: self.h1.l.sub(o.h1.l), r: self.h1.r.sub(o.h1.r) },
            h2: Replicated { l: self.h2.l.sub(o.h2.l), r: self.h2.r.sub(o.h2.r) },
        };
        proof {
            F::field_facts();
            let m = F::modulus();
            let a0 = self.h0.l.as_int();
            let a1 = self.h1.l.as_int();
            let a2 = self.h2.l.as_int();
            let b0 = o.h0.l.as_int();
            let b1 = o.h1.l.as_int();
            let b2 = o.h2.l.as_int();
            lemma_mod_noop_add_l(a0 - b0, t.h1.l.as_int() + t.h2.l.as_int(), m);
            lemma_mod_noop_add_r((a0 - b0) + t.h2.l.as_int(), a1 - b1, m);
            lemma_mod_noop_add_r((a0 - b0) + (a1 - b1), a2 - b2, m);
            assert(t.recon() == ((a0 + a1 + a2) - (b0 + b1 + b2)) % m);
            vstd::arithmetic::div_mod::lemma_sub_mod_noop(a0 + a1 + a2, b0 + b1 + b2, m);
        }
        t
    }

    /// Local negation: `-[x]` is a sharing of `-x`.
    pub fn neg_shares(&self) -> (r: Self)
        requires
            self.wf(),
        ensures
            r.wf(),
            r.recon() == (0 - self.recon()) % F::modulus(),
    {
        let t = WorldShare {
            h0: Replicated { l: self.h0.l.neg(), r: self.h0.r.neg() },
            h1: Replicated { l: self.h1.l.neg(), r: self.h1.r.neg() },
            h2: Replicated { l: self.h2.l.neg(), r: self.h2.r.neg() },
        };
        proof {
            F::field_facts();
            let m = F::modulus();
            let a0 = self.h0.l.as_int();
            let a1 = self.h1.l.as_int();
            let a2 = self.h2.l.as_int();
            lemma_mod_noop_add_l(0 - a0, t.h1.l.as_int() + t.h2.l.as_int(), m);
            lemma_mod_noop_add_r((0 - a0) + t.h2.l.as_int(), 0 - a1, m);
            lemma_mod_noop_add_r((0 - a0) + (0 - a1), 0 - a2, m);
            assert(t.recon() == (0 - (a0 + a1 + a2)) % m);
            lemma_mod_noop_sub_r(0, a0 + a1 + a2, m);
        }
        t
    }

    /// Local multiplication by a public constant: `c * [x]` is a sharing of
    /// `c * x`.
    pub fn mul_by_public(&self, c: F) -> (r: Self)
        requires
            self.wf(),
            c.valid(),
        ensures
            r.wf(),
            r.recon() == (self.recon() * c.as_int()) % F::modulus(),
    {
        let t = WorldShare {
            h0: Replicated { l: self.h0.l.mul(c), r: self.h0.r.mul(c) },
            h1: Replicated { l: self.h1.l.mul(c), r: self.h1.r.mul(c) },
            h2: Replicated { l: self.h2.l.mul(c), r: self.h2.r.mul(c) },
        };
        proof {
            F::field_facts();
            let m = F::modulus();
            let cc = c.as_int();
            let a0 = self.h0.l.as_int();
            let a1 = self.h1.l.as_int();
            let a2 = self.h2.l.as_int();
            lemma_mod_noop_add_l(a0 * cc, t.h1.l.as_int() + t.h2.l.as_int(), m);
            lemma_mod_noop_add_r((a0 * cc) + t.h2.l.as_int(), a1 * cc, m);
            lemma_mod_noop_add_r((a0 * cc) + (a1 * cc), a2 * cc, m);
            assert((a0 + a1 + a2) * cc == a0 * cc + a1 * cc + a2 * cc) by (nonlinear_arith);
            assert(t.recon() == ((a0 + a1 + a2) * cc) % m);
            vstd::arithmetic::div_mod::lemma_mul_mod_noop_general(a0 + a1 + a2, cc, m);
        }
        t
    }

    /// Split a secret into fresh replicated shares.
    ///
    /// The two blinding summands come from the randomness source; for every
    /// choice of them the three resulting shares reconstruct to exactly `s`.
    pub fn share_with(s: F, prss: &mut Prss) -> (t: Self)
        requires
            s.valid(),
        ensures
            t.wf(),
            t.recon() == s.as_int(),
    {
        let x0: F = prss.next_field();
        let x1: F = prss.next_field();
        let x2: F = s.sub(x0).sub(x1);
        let t = Self::from_summands(x0, x1, x2);
        proof {
            F::field_facts();
            s.valid_facts();
            x0.valid_facts();
            x1.valid_facts();
            let m = F::modulus();
            let a = s.as_int();
            // x2 == (a - x0 - x1) mod m
            lemma_mod_noop_sub_l(a - x0.as_int(), x1.as_int(), m);
            // folding x2 into the sum
            lemma_mod_noop_add_r(x0.as_int() + x1.as_int(), a - x0.as_int() - x1.as_int(), m);
            lemma_small_mod(a as nat, m as nat);
        }
        t
    }
}

/// The three helpers' XOR-replicated shares of one match key.
#[derive(Clone, Copy, Debug, PartialEq, Eq, Structural, Hash)]
pub struct XorWorldShare {
    pub h0: XorReplicated,
    pub h1: XorReplicated,
    pub h2: XorReplicated,
}

impl XorWorldShare {
    /// Ring consistency and width bounds.
    pub open spec fn wf(self) -> bool {
        &&& self.h0.valid()
        &&& self.h1.valid()
        &&& self.h2.valid()
        &&& self.h0.r == self.h1.l
        &&& self.h1.r == self.h2.l
        &&& self.h2.r == self.h0.l
    }

    /// The match key the three shares reconstruct to.
    pub open spec fn recon(self) -> u64 {
        self.h0.l ^ self.h1.l ^ self.h2.l
    }

    /// Split a match key into fresh XOR shares; they reconstruct to `s`.
    pub fn share_with(s: u64, prss: &mut Prss) -> (t: Self)
        requires
            s < MATCH_KEY_LIMIT,
        ensures
            t.wf(),
            t.recon() == s,
    {
        let m0 = prss.next_u64();
        let m1 = prss.next_u64();
        let x0: u64 = m0 & (MATCH_KEY_LIMIT - 1);
        let x1: u64 = m1 & (MATCH_KEY_LIMIT - 1);
        proof {
            assert(m0 & 0xff_ffff_ffffu64 < 0x100_0000_0000u64) by (bit_vector);
            assert(m1 & 0xff_ffff_ffffu64 < 0x100_0000_0000u64) by (bit_vector);
        }
        let x2: u64 = s ^ x0 ^ x1;
        let t = XorWorldShare {
            h0: XorReplicated { l: x0, r: x1 },
            h1: XorReplicated { l: x1, r: x2 },
            h2: XorReplicated { l: x2, r: x0 },
        };
        proof {
            assert(x2 < 0x100_0000_0000 && (x0 ^ x1 ^ x2) == s) by (bit_vector)
                requires
                    x2 == s ^ x0 ^ x1,
                    s < 0x100_0000_0000u64,
                    x0 < 0x100_0000_0000u64,
                    x1 < 0x100_0000_0000u64,
            ;
        }
        t
    }

    /// Reconstruct the match key by XOR of the three left halves.
    pub fn reconstruct(&self) -> (r: u64)
        requires
            self.wf(),
        ensures
            r == self.recon(),
            r < MATCH_KEY_LIMIT,
    {
        let r = self.h0.l ^ self.h1.l ^ self.h2.l;
        proof {
            let (a, b, c) = (self.h0.l, self.h1.l, self.h2.l);
            assert((a ^ b ^ c) < 0x100_0000_0000u64) by (bit_vector)
                requires
                    a < 0x100_0000_0000u64,
                    b < 0x100_0000_0000u64,
                    c < 0x100_0000_0000u64,
            ;
        }
        r
    }

    /// Bit `i` of the reconstructed match key.
    pub open spec fn recon_bit(self, i: u64) -> u64 {
        (self.recon() >> i) & 1
    }
}

/// A well-formed XOR sharing reconstructs to a value in the match-key range.
pub proof fn lemma_xor_recon_bound(x: XorWorldShare)
    requires
        x.wf(),
    ensures
        x.recon() < MATCH_KEY_LIMIT,
{
    let (a, b, c) = (x.h0.l, x.h1.l, x.h2.l);
    assert((a ^ b ^ c) < 0x100_0000_0000u64) by (bit_vector)
        requires
            a < 0x100_0000_0000u64,
            b < 0x100_0000_0000u64,
            c < 0x100_0000_0000u64,
    ;
}

} // verus!
