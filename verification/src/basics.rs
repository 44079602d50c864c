//! The communication-bearing sub-protocols: replicated multiplication and
//! resharing.

use vstd::prelude::*;
use vstd::arithmetic::div_mod::{lemma_add_mod_noop, lemma_mul_mod_noop_general};
use crate::ff::{
    lemma_mod_noop_add_l, lemma_mod_noop_add_r, lemma_mod_noop_sub_l, Field,
};
use crate::secret_sharing::{Prss, Role, WorldShare};

verus! {

proof fn lemma_local_term(m: int, p0: int, p1: int, p2: int, rin: int, rout: int)
    requires
        m > 0,
    ensures
        (((((p0 % m) + (p1 % m)) % m + (p2 % m)) % m + rin) % m - rout) % m
            == (p0 + p1 + p2 + rin - rout) % m,
{
    lemma_add_mod_noop(p0, p1, m);
    lemma_add_mod_noop(p0 + p1, p2, m);
    lemma_mod_noop_add_l(p0 + p1 + p2, rin, m);
    lemma_mod_noop_sub_l(p0 + p1 + p2 + rin, rout, m);
}

/// One round of replicated multiplication: `[z] = [x] * [y]`.
///
/// Each helper computes, from its own two summands of `x` and `y` and its
/// correlated randomness, the value `d = x_i*y_i + x_i*y_{i+1} + x_{i+1}*y_i
/// + a - b`; it sends `d` to its right peer, and the value received from the
/// left peer becomes its new left summand. The blinding terms cancel over the
/// ring, so the product reconstructs exactly.
pub fn mul_shares<F: Field>(x: &WorldShare<F>, y: &WorldShare<F>, prss: &mut Prss) -> (z:
    WorldShare<F>)
    requires
        x.wf(),
        y.wf(),
    ensures
        z.wf(),
        z.recon() == (x.recon() * y.recon()) % F::modulus(),
{
    let r0: F = prss.next_field();
    let r1: F = prss.next_field();
    let r2: F = prss.next_field();
    let d0 = x.h0.l.mul(y.h0.l).add(x.h0.l.mul(y.h0.r)).add(x.h0.r.mul(y.h0.l)).add(r0).sub(r1);
    let d1 = x.h1.l.mul(y.h1.l).add(x.h1.l.mul(y.h1.r)).add(x.h1.r.mul(y.h1.l)).add(r1).sub(r2);
    let d2 = x.h2.l.mul(y.h2.l).add(x.h2.l.mul(y.h2.r)).add(x.h2.r.mul(y.h2.l)).add(r2).sub(r0);
    let z = WorldShare::from_summands(d0, d1, d2);
    proof {
        F::field_facts();
        let m = F::modulus();
        let x0 = x.h0.l.as_int();
        let x1 = x.h1.l.as_int();
        let x2 = x.h2.l.as_int();
        let y0 = y.h0.l.as_int();
        let y1 = y.h1.l.as_int();
        let y2 = y.h2.l.as_int();
        let q0 = r0.as_int();
        let q1 = r1.as_int();
        let q2 = r2.as_int();
        lemma_local_term(m, x0 * y0, x0 * y1, x1 * y0, q0, q1);
        lemma_local_term(m, x1 * y1, x1 * y2, x2 * y1, q1, q2);
        lemma_local_term(m, x2 * y2, x2 * y0, x0 * y2, q2, q0);
        let t0 = x0 * y0 + x0 * y1 + x1 * y0 + q0 - q1;
        let t1 = x1 * y1 + x1 * y2 + x2 * y1 + q1 - q2;
        let t2 = x2 * y2 + x2 * y0 + x0 * y2 + q2 - q0;
        assert(d0.as_int() == t0 % m);
        assert(d1.as_int() == t1 % m);
        assert(d2.as_int() == t2 % m);
        lemma_mod_noop_add_l(t0, t1 % m + t2 % m, m);
        lemma_mod_noop_add_r(t0 + t2 % m, t1, m);
        lemma_mod_noop_add_r(t0 + t1, t2, m);
        assert(z.recon() == (t0 + t1 + t2) % m);
        assert((x0 + x1 + x2) * (y0 + y1 + y2) == x0 * y0 + x0 * y1 + x1 * y0 + x1 * y1 + x1
            * y2 + x2 * y1 + x2 * y2 + x2 * y0 + x0 * y2) by (nonlinear_arith);
        lemma_mul_mod_noop_general(x0 + x1 + x2, y0 + y1 + y2, m);
    }
    z
}

/// Reshare `[x]` so that fresh randomness replaces the old summands while the
/// secret stays fixed. `to_helper` is the party that is to learn nothing new:
/// the other two helpers blind their summands with correlated randomness that
/// cancels over the ring.
pub fn reshare_one<F: Field>(x: &WorldShare<F>, to_helper: Role, prss: &mut Prss) -> (z:
    WorldShare<F>)
    requires
        x.wf(),
    ensures
        z.wf(),
        z.recon() == x.recon(),
{
    let a: F = prss.next_field();
    let (s0, s1, s2) = match to_helper {
        Role::H0 => (x.h0.l, x.h1.l.add(a), x.h2.l.sub(a)),
        Role::H1 => (x.h0.l.sub(a), x.h1.l, x.h2.l.add(a)),
        Role::H2 => (x.h0.l.add(a), x.h1.l.sub(a), x.h2.l),
    };
    let z = WorldShare::from_summands(s0, s1, s2);
    proof {
        F::field_facts();
        let m = F::modulus();
        let x0 = x.h0.l.as_int();
        let x1 = x.h1.l.as_int();
        let x2 = x.h2.l.as_int();
        let q = a.as_int();
        match to_helper {
            Role::H0 => {
                lemma_mod_noop_add_r(x0 + (x2 - q) % m, x1 + q, m);
                lemma_mod_noop_add_r(x0 + (x1 + q), x2 - q, m);
            },
            Role::H1 => {
                lemma_mod_noop_add_r(x1 + (x2 + q) % m, x0 - q, m);
                lemma_mod_noop_add_r(x1 + (x0 - q), x2 + q, m);
            },
            Role::H2 => {
                lemma_mod_noop_add_r(x2 + (x1 - q) % m, x0 + q, m);
                lemma_mod_noop_add_r(x2 + (x0 + q), x1 - q, m);
            },
        }
    }
    z
}

} // verus!
