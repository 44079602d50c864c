//! Prime fields and canonical little-endian byte encodings.
//!
//! Two fields are provided: a small one for tests and a 32-bit prime field
//! for production queries. The `Field` trait carries the facts every
//! generic protocol proof needs: the modulus, the residue an element
//! stands for, and the canonical encoding.

use vstd::prelude::*;
use vstd::arithmetic::div_mod::{
    lemma_add_mod_noop, lemma_fundamental_div_mod, lemma_mod_bound, lemma_small_mod,
    lemma_sub_mod_noop,
};
use crate::error::Error;

verus! {

/// Value of a little-endian byte sequence.
pub open spec fn le_val(s: Seq<u8>) -> int
    decreases s.len(),
{
    if s.len() == 0 {
        0
    } else {
        s[0] + 256 * le_val(s.skip(1))
    }
}

/// Little-endian encoding of `v` in `n` bytes.
pub open spec fn le_bytes(v: int, n: nat) -> Seq<u8>
    decreases n,
{
    if n == 0 {
        Seq::empty()
    } else {
        seq![(v % 256) as u8] + le_bytes(v / 256, (n - 1) as nat)
    }
}

/// 256 to the power `n`.
pub open spec fn pow256(n: nat) -> int
    decreases n,
{
    if n == 0 {
        1
    } else {
        256 * pow256((n - 1) as nat)
    }
}

/// 2 to the power `n`.
pub open spec fn pow2i(n: nat) -> int
    decreases n,
{
    if n == 0 {
        1
    } else {
        2 * pow2i((n - 1) as nat)
    }
}

pub proof fn lemma_pow256_pos(n: nat)
    ensures
        pow256(n) >= 1,
    decreases n,
{
    if n > 0 {
        lemma_pow256_pos((n - 1) as nat);
    }
}

pub proof fn lemma_pow2i_pos(n: nat)
    ensures
        pow2i(n) >= 1,
    decreases n,
{
    if n > 0 {
        lemma_pow2i_pos((n - 1) as nat);
    }
}

/// A byte sequence of length `n` denotes a value below `pow256(n)`.
pub proof fn lemma_le_val_bound(s: Seq<u8>)
    ensures
        0 <= le_val(s) < pow256(s.len()),
    decreases s.len(),
{
    if s.len() == 0 {
    } else {
        lemma_le_val_bound(s.skip(1));
    }
}

pub proof fn lemma_le_bytes_len(v: int, n: nat)
    ensures
        le_bytes(v, n).len() == n,
    decreases n,
{
    if n > 0 {
        lemma_le_bytes_len(v / 256, (n - 1) as nat);
    }
}

/// Decoding an encoding gives the value back.
pub proof fn lemma_le_val_of_le_bytes(v: int, n: nat)
    requires
        0 <= v < pow256(n),
    ensures
        le_val(le_bytes(v, n)) == v,
    decreases n,
{
    if n == 0 {
    } else {
        let s = le_bytes(v, n);
        lemma_fundamental_div_mod(v, 256);
        assert(v / 256 < pow256((n - 1) as nat)) by {
            lemma_pow256_pos((n - 1) as nat);
        }
        lemma_le_val_of_le_bytes(v / 256, (n - 1) as nat);
        assert(s.skip(1) =~= le_bytes(v / 256, (n - 1) as nat));
    }
}

/// Encoding a decoded sequence gives the sequence back.
pub proof fn lemma_le_bytes_of_le_val(s: Seq<u8>)
    ensures
        le_bytes(le_val(s), s.len()) == s,
    decreases s.len(),
{
    if s.len() == 0 {
        assert(le_bytes(le_val(s), s.len()) =~= s);
    } else {
        let v = le_val(s);
        lemma_le_val_bound(s.skip(1));
        assert(v == s[0] + 256 * le_val(s.skip(1)));
        assert(v % 256 == s[0] && v / 256 == le_val(s.skip(1))) by {
            lemma_fundamental_div_mod(v, 256);
            vstd::arithmetic::div_mod::lemma_fundamental_div_mod_converse(
                v, 256, le_val(s.skip(1)), s[0] as int);
        }
        lemma_le_bytes_of_le_val(s.skip(1));
        assert(le_bytes(le_val(s), s.len()) =~= s);
    }
}

/// Reducing the right summand first does not change a sum's residue.
pub proof fn lemma_mod_noop_add_r(x: int, y: int, m: int)
    requires
        m > 0,
    ensures
        (x + y % m) % m == (x + y) % m,
{
    lemma_add_mod_noop(x, y, m);
    lemma_add_mod_noop(x, y % m, m);
    lemma_mod_bound(y, m);
    lemma_small_mod((y % m) as nat, m as nat);
}

/// Reducing the left summand first does not change a sum's residue.
pub proof fn lemma_mod_noop_add_l(x: int, y: int, m: int)
    requires
        m > 0,
    ensures
        (x % m + y) % m == (x + y) % m,
{
    lemma_add_mod_noop(x, y, m);
    lemma_add_mod_noop(x % m, y, m);
    lemma_mod_bound(x, m);
    lemma_small_mod((x % m) as nat, m as nat);
}

/// Reducing the minuend first does not change a difference's residue.
pub proof fn lemma_mod_noop_sub_l(x: int, y: int, m: int)
    requires
        m > 0,
    ensures
        (x % m - y) % m == (x - y) % m,
{
    lemma_sub_mod_noop(x, y, m);
    lemma_sub_mod_noop(x % m, y, m);
    lemma_mod_bound(x, m);
    lemma_small_mod((x % m) as nat, m as nat);
}

/// Reducing the subtrahend first does not change a difference's residue.
pub proof fn lemma_mod_noop_sub_r(x: int, y: int, m: int)
    requires
        m > 0,
    ensures
        (x - y % m) % m == (x - y) % m,
{
    lemma_sub_mod_noop(x, y, m);
    lemma_sub_mod_noop(x, y % m, m);
    lemma_mod_bound(y, m);
    lemma_small_mod((y % m) as nat, m as nat);
}

/// A prime-field residue: the element algebra every share and every protocol
/// stage is built on.
///
/// `as_int` is the residue an element stands for, `valid` says the stored
/// representation is canonical, and the arithmetic methods work modulo
/// `modulus()`. `size_spec` is the length of the canonical little-endian
/// encoding; `bits_spec` is the width used by bit decomposition.
pub trait Field: Sized + Copy {
    /// The prime modulus of the field.
    spec fn modulus() -> int;

    /// The residue this element stands for.
    spec fn as_int(self) -> int;

    /// The stored representation is canonical (reduced).
    spec fn valid(self) -> bool;

    /// Length in bytes of the canonical encoding.
    spec fn size_spec() -> nat;

    /// Number of bits used by bit decomposition.
    spec fn bits_spec() -> nat;

    /// Basic facts about the field parameters.
    proof fn field_facts()
        ensures
            3 <= Self::modulus(),
            Self::modulus() <= 0x1_0000_0000,
            1 <= Self::size_spec() <= 8,
            1 <= Self::bits_spec() <= 64,
            pow256(Self::size_spec()) > Self::modulus(),
            pow2i(Self::bits_spec()) >= Self::modulus(),
    ;

    /// A valid element is a residue in `[0, modulus)`.
    proof fn valid_facts(self)
        requires
            self.valid(),
        ensures
            0 <= self.as_int() < Self::modulus(),
    ;

    /// Canonical elements with the same residue are the same element.
    proof fn eq_from_int(self, o: Self)
        requires
            self.valid(),
            o.valid(),
            self.as_int() == o.as_int(),
        ensures
            self == o,
    ;

    /// Length in bytes of the canonical encoding.
    fn size_in_bytes() -> (n: usize)
        ensures
            n == Self::size_spec(),
    ;

    /// Number of bits used by bit decomposition.
    fn bits() -> (n: usize)
        ensures
            n == Self::bits_spec(),
    ;

    /// The additive identity.
    fn zero() -> (r: Self)
        ensures
            r.valid(),
            r.as_int() == 0,
    ;

    /// The multiplicative identity.
    fn one() -> (r: Self)
        ensures
            r.valid(),
            r.as_int() == 1,
    ;

    /// The residue of an arbitrary integer.
    fn from_u128(x: u128) -> (r: Self)
        ensures
            r.valid(),
            r.as_int() == x as int % Self::modulus(),
    ;

    /// The residue as an integer.
    fn as_u128(self) -> (r: u128)
        requires
            self.valid(),
        ensures
            r as int == self.as_int(),
    ;

    /// The residue as a 64-bit integer (the modulus fits well below `2^64`).
    fn as_u64(self) -> (r: u64)
        requires
            self.valid(),
        ensures
            r as int == self.as_int(),
    ;

    /// Field addition.
    fn add(self, o: Self) -> (r: Self)
        requires
            self.valid(),
            o.valid(),
        ensures
            r.valid(),
            r.as_int() == (self.as_int() + o.as_int()) % Self::modulus(),
    ;

    /// Field subtraction.
    fn sub(self, o: Self) -> (r: Self)
        requires
            self.valid(),
            o.valid(),
        ensures
            r.valid(),
            r.as_int() == (self.as_int() - o.as_int()) % Self::modulus(),
    ;

    /// Field negation.
    fn neg(self) -> (r: Self)
        requires
            self.valid(),
        ensures
            r.valid(),
            r.as_int() == (0 - self.as_int()) % Self::modulus(),
    ;

    /// Field multiplication.
    fn mul(self, o: Self) -> (r: Self)
        requires
            self.valid(),
            o.valid(),
        ensures
            r.valid(),
            r.as_int() == (self.as_int() * o.as_int()) % Self::modulus(),
    ;

    /// Append the canonical little-endian encoding to `out`.
    fn write_bytes(self, out: &mut Vec<u8>)
        requires
            self.valid(),
        ensures
            final(out)@ == old(out)@ + le_bytes(self.as_int(), Self::size_spec()),
    ;

    /// Read a canonical encoding from `b` at offset `pos`.
    ///
    /// Fails with `FieldOverflow` exactly when the encoded value is not a
    /// residue of the field.
    fn read_bytes(b: &[u8], pos: usize) -> (r: Result<Self, Error>)
        requires
            pos + Self::size_spec() <= b@.len(),
        ensures
            ({
                let v = le_val(b@.subrange(pos as int, pos + Self::size_spec()));
                match r {
                    Ok(e) => e.valid() && e.as_int() == v && v < Self::modulus(),
                    Err(e) => e == Error::FieldOverflow && v >= Self::modulus(),
                }
            }),
    ;
}

/// The prime field of 31 elements, used by tests and small circuits.
#[derive(Clone, Copy, Debug, PartialEq, Eq, Structural, Hash)]
pub struct Fp31 {
    pub v: u8,
}

/// Append `n` little-endian bytes of `x` to `out`.
pub fn write_le(out: &mut Vec<u8>, x: u64, n: usize)
    requires
        n <= 8,
        x < pow256(n as nat),
    ensures
        final(out)@ == old(out)@ + le_bytes(x as int, n as nat),
{
    proof {
        lemma_le_bytes_len(x as int, n as nat);
    }
    let ghost base = out@;
    let mut cur: u64 = x;
    let mut i: usize = 0;
    while i < n
        invariant
            i <= n,
            n <= 8,
            out@.len() == base.len() + i,
            out@.subrange(0, base.len() as int) == base,
            cur < pow256((n - i) as nat),
            le_bytes(x as int, n as nat) == out@.skip(base.len() as int) + le_bytes(
                cur as int, (n - i) as nat),
        decreases n - i,
    {
        let b: u8 = (cur % 256) as u8;
        let ghost pre = out@;
        out.push(b);
        proof {
            assert(le_bytes(cur as int, (n - i) as nat) == seq![b] + le_bytes(
                cur as int / 256, (n - i - 1) as nat));
            assert(out@.skip(base.len() as int) =~= pre.skip(base.len() as int) + seq![b]);
            assert(out@.skip(base.len() as int) + le_bytes(cur as int / 256, (n - i - 1) as nat)
                =~= pre.skip(base.len() as int) + (seq![b] + le_bytes(
                    cur as int / 256, (n - i - 1) as nat)));
            assert(cur as int / 256 < pow256((n - i - 1) as nat)) by {
                lemma_pow256_pos((n - i - 1) as nat);
                lemma_fundamental_div_mod(cur as int, 256);
            }
            assert(out@.subrange(0, base.len() as int) =~= base);
        }
        cur = cur / 256;
        i = i + 1;
    }
    proof {
        assert(le_bytes(cur as int, 0) =~= Seq::<u8>::empty());
        assert(out@.skip(base.len() as int) + Seq::<u8>::empty() =~= out@.skip(base.len() as int));
        assert(out@ =~= base + out@.skip(base.len() as int));
    }
}

/// Read `n` little-endian bytes at offset `pos` as an integer.
pub fn read_le(b: &[u8], pos: usize, n: usize) -> (x: u64)
    requires
        n <= 8,
        pos + n <= b@.len(),
    ensures
        x as int == le_val(b@.subrange(pos as int, pos + n as int)),
{
    let blen: usize = b.len();
    let mut cur: u64 = 0;
    let mut i: usize = n;
    proof {
        assert(b@.subrange(pos + n as int, pos + n as int) =~= Seq::<u8>::empty());
    }
    while i > 0
        invariant
            i <= n,
            n <= 8,
            blen == b@.len(),
            pos + n <= b@.len(),
            cur as int == le_val(b@.subrange(pos + i as int, pos + n as int)),
            cur < pow256((n - i) as nat),
        decreases i,
    {
        let byte = b[pos + (i - 1)];
        proof {
            let tail = b@.subrange(pos + i as int, pos + n as int);
            let whole = b@.subrange(pos + i - 1, pos + n as int);
            assert(whole.skip(1) =~= tail);
            assert(whole[0] == byte);
            assert(le_val(whole) == byte + 256 * le_val(tail));
            lemma_le_val_bound(tail);
            assert(pow256((n - i) as nat) <= pow256(7)) by {
                lemma_pow256_mono((n - i) as nat, 7);
            }
            assert(pow256(7) == 0x100000000000000) by {
                lemma_pow256_unfold();
            }
        }
        cur = cur * 256 + (byte as u64);
        i = i - 1;
    }
    cur
}

proof fn lemma_pow256_unfold()
    ensures
        pow256(0) == 1,
        pow256(1) == 0x100,
        pow256(2) == 0x10000,
        pow256(3) == 0x1000000,
        pow256(4) == 0x100000000,
        pow256(5) == 0x10000000000,
        pow256(6) == 0x1000000000000,
        pow256(7) == 0x100000000000000,
        pow256(8) == 0x10000000000000000,
{
    assert(pow256(0) == 1);
    assert(pow256(1) == 256 * pow256(0));
    assert(pow256(2) == 256 * pow256(1));
    assert(pow256(3) == 256 * pow256(2));
    assert(pow256(4) == 256 * pow256(3));
    assert(pow256(5) == 256 * pow256(4));
    assert(pow256(6) == 256 * pow256(5));
    assert(pow256(7) == 256 * pow256(6));
    assert(pow256(8) == 256 * pow256(7));
}

/// Five bytes hold exactly the match-key range.
pub proof fn lemma_pow256_le_match_key()
    ensures
        pow256(5) == 0x100_0000_0000,
{
    lemma_pow256_unfold();
}

proof fn lemma_pow256_mono(a: nat, b: nat)
    requires
        a <= b,
    ensures
        pow256(a) <= pow256(b),
    decreases b,
{
    if a < b {
        lemma_pow256_mono(a, (b - 1) as nat);
        lemma_pow256_pos((b - 1) as nat);
    }
}

impl Field for Fp31 {
    open spec fn modulus() -> int {
        31
    }

    open spec fn as_int(self) -> int {
        self.v as int
    }

    open spec fn valid(self) -> bool {
        self.v < 31
    }

    open spec fn size_spec() -> nat {
        1
    }

    open spec fn bits_spec() -> nat {
        8
    }

    proof fn field_facts() {
        lemma_pow256_unfold();
        assert(pow2i(8) == 256) by {
            assert(pow2i(0) == 1);
            assert(pow2i(1) == 2);
            assert(pow2i(2) == 4);
            assert(pow2i(3) == 8);
            assert(pow2i(4) == 16);
            assert(pow2i(5) == 32);
            assert(pow2i(6) == 64);
            assert(pow2i(7) == 128);
        }
    }

    proof fn valid_facts(self) {
    }

    proof fn eq_from_int(self, o: Self) {
    }

    fn size_in_bytes() -> usize {
        1
    }

    fn bits() -> usize {
        8
    }

    fn zero() -> Self {
        Fp31 { v: 0 }
    }

    fn one() -> Self {
        Fp31 { v: 1 }
    }

    fn from_u128(x: u128) -> Self {
        Fp31 { v: (x % 31) as u8 }
    }

    fn as_u128(self) -> u128 {
        self.v as u128
    }

    fn as_u64(self) -> u64 {
        self.v as u64
    }

    fn add(self, o: Self) -> Self {
        Fp31 { v: ((self.v as u16 + o.v as u16) % 31) as u8 }
    }

    fn sub(self, o: Self) -> Self {
        Fp31 { v: ((self.v as u16 + 31 - o.v as u16) % 31) as u8 }
    }

    fn neg(self) -> Self {
        Fp31 { v: ((31 - self.v as u16) % 31) as u8 }
    }

    fn mul(self, o: Self) -> Self {
        proof {
            vstd::arithmetic::mul::lemma_mul_upper_bound(self.v as int, 30, o.v as int, 30);
        }
        Fp31 { v: ((self.v as u16 * o.v as u16) % 31) as u8 }
    }

    fn write_bytes(self, out: &mut Vec<u8>) {
        proof {
            lemma_pow256_unfold();
        }
        write_le(out, self.v as u64, 1);
    }

    fn read_bytes(b: &[u8], pos: usize) -> Result<Self, Error> {
        let x = read_le(b, pos, 1);
        if x < 31 {
            Ok(Fp31 { v: x as u8 })
        } else {
            Err(Error::FieldOverflow)
        }
    }
}

/// The prime field modulo `2^32 - 5`, used for production queries.
#[derive(Clone, Copy, Debug, PartialEq, Eq, Structural, Hash)]
pub struct Fp32BitPrime {
    pub v: u32,
}

/// The modulus of [`Fp32BitPrime`].
pub const PRIME32: u32 = 4294967291;

proof fn lemma_pow2i_sum(a: nat, b: nat)
    ensures
        pow2i(a + b) == pow2i(a) * pow2i(b),
    decreases b,
{
    if b == 0 {
    } else {
        let b1 = (b - 1) as nat;
        lemma_pow2i_sum(a, b1);
        assert(pow2i(a + b) == 2 * pow2i((a + b1) as nat));
        assert(pow2i(b) == 2 * pow2i(b1));
        assert(2 * (pow2i(a) * pow2i(b1)) == pow2i(a) * (2 * pow2i(b1))) by (nonlinear_arith);
    }
}

proof fn lemma_pow2i_values()
    ensures
        pow2i(8) == 0x100,
        pow2i(32) == 0x1_0000_0000,
        pow2i(40) == 0x100_0000_0000,
{
    assert(pow2i(0) == 1);
    assert(pow2i(1) == 2);
    assert(pow2i(2) == 4);
    assert(pow2i(3) == 8);
    assert(pow2i(4) == 16);
    assert(pow2i(5) == 32);
    assert(pow2i(6) == 64);
    assert(pow2i(7) == 128);
    assert(pow2i(8) == 256);
    lemma_pow2i_sum(8, 8);
    assert(pow2i(16) == 0x10000);
    lemma_pow2i_sum(16, 16);
    assert(pow2i(32) == 0x1_0000_0000);
    lemma_pow2i_sum(32, 8);
    assert(pow2i(40) == 0x100_0000_0000);
}

/// `pow2i` is monotone in the exponent.
pub proof fn lemma_pow2i_mono_pub(a: nat, b: nat)
    requires
        a <= b,
    ensures
        pow2i(a) <= pow2i(b),
    decreases b,
{
    if a < b {
        lemma_pow2i_mono_pub(a, (b - 1) as nat);
        lemma_pow2i_pos((b - 1) as nat);
    }
}

/// The value of `pow2i` at the match-key width.
pub proof fn lemma_pow2i_value_40()
    ensures
        pow2i(40) == 0x100_0000_0000,
{
    lemma_pow2i_values();
}

/// The value of `pow2i` at the machine-word width.
pub proof fn lemma_pow2i_value_64()
    ensures
        pow2i(64) == 0x1_0000_0000_0000_0000,
{
    lemma_pow2i_values();
    lemma_pow2i_sum(32, 32);
}

impl Field for Fp32BitPrime {
    open spec fn modulus() -> int {
        PRIME32 as int
    }

    open spec fn as_int(self) -> int {
        self.v as int
    }

    open spec fn valid(self) -> bool {
        self.v < PRIME32
    }

    open spec fn size_spec() -> nat {
        4
    }

    open spec fn bits_spec() -> nat {
        32
    }

    proof fn field_facts() {
        lemma_pow256_unfold();
        lemma_pow2i_values();
    }

    proof fn valid_facts(self) {
    }

    proof fn eq_from_int(self, o: Self) {
    }

    fn size_in_bytes() -> usize {
        4
    }

    fn bits() -> usize {
        32
    }

    fn zero() -> Self {
        Fp32BitPrime { v: 0 }
    }

    fn one() -> Self {
        Fp32BitPrime { v: 1 }
    }

    fn from_u128(x: u128) -> Self {
        Fp32BitPrime { v: (x % (PRIME32 as u128)) as u32 }
    }

    fn as_u128(self) -> u128 {
        self.v as u128
    }

    fn as_u64(self) -> u64 {
        self.v as u64
    }

    fn add(self, o: Self) -> Self {
        Fp32BitPrime { v: ((self.v as u64 + o.v as u64) % (PRIME32 as u64)) as u32 }
    }

    fn sub(self, o: Self) -> Self {
        Fp32BitPrime { v: ((self.v as u64 + PRIME32 as u64 - o.v as u64) % (PRIME32 as u64)) as u32 }
    }

    fn neg(self) -> Self {
        Fp32BitPrime { v: ((PRIME32 as u64 - self.v as u64) % (PRIME32 as u64)) as u32 }
    }

    fn mul(self, o: Self) -> Self {
        proof {
            assert((self.v as u64) * (o.v as u64) <= 0xffff_ffff_ffff_ffffu64)
                by (nonlinear_arith)
                requires
                    self.v < 4294967291u32,
                    o.v < 4294967291u32,
            ;
        }
        Fp32BitPrime { v: ((self.v as u64 * o.v as u64) % (PRIME32 as u64)) as u32 }
    }

    fn write_bytes(self, out: &mut Vec<u8>) {
        proof {
            lemma_pow256_unfold();
        }
        write_le(out, self.v as u64, 4);
    }

    fn read_bytes(b: &[u8], pos: usize) -> Result<Self, Error> {
        let x = read_le(b, pos, 4);
        if x < PRIME32 as u64 {
            Ok(Fp32BitPrime { v: x as u32 })
        } else {
            Err(Error::FieldOverflow)
        }
    }
}

} // verus!
