//! Input rows, their wire format, and the top-level attribution pipeline.

use vstd::prelude::*;
use crate::error::Error;
use crate::ff::{
    le_bytes, le_val, lemma_le_bytes_len, lemma_le_bytes_of_le_val, lemma_le_val_bound,
    lemma_le_val_of_le_bytes, read_le, write_le, Field,
};
use crate::secret_sharing::{Replicated, WorldShare, XorReplicated};
use crate::sort::Resharable;

verus! {

/// One helper's view of one ingested event record: a bitwise XOR-shared
/// match key and three replicated field shares.
#[derive(Clone, Copy, Debug, PartialEq, Eq)]
pub struct IPAInputRow<F: Field> {
    pub mk_shares: XorReplicated,
    pub is_trigger_bit: Replicated<F>,
    pub breakdown_key: Replicated<F>,
    pub trigger_value: Replicated<F>,
}

impl<F: Field> IPAInputRow<F> {
    /// Every component is in canonical range.
    pub open spec fn valid(self) -> bool {
        &&& self.mk_shares.valid()
        &&& self.is_trigger_bit.valid()
        &&& self.breakdown_key.valid()
        &&& self.trigger_value.valid()
    }

    /// Number of bytes of one serialized row: the match-key pair followed by
    /// three replicated share pairs.
    pub open spec fn size_spec() -> nat {
        10 + 6 * F::size_spec()
    }

    /// The wire image of this row: `mk_shares`, `is_trigger_bit`,
    /// `breakdown_key`, `trigger_value`, each as little-endian pairs, in this
    /// exact order.
    pub open spec fn row_bytes(self) -> Seq<u8> {
        le_bytes(self.mk_shares.l as int, 5) + le_bytes(self.mk_shares.r as int, 5) + le_bytes(
            self.is_trigger_bit.l.as_int(), F::size_spec()) + le_bytes(
            self.is_trigger_bit.r.as_int(), F::size_spec()) + le_bytes(
            self.breakdown_key.l.as_int(), F::size_spec()) + le_bytes(
            self.breakdown_key.r.as_int(), F::size_spec()) + le_bytes(
            self.trigger_value.l.as_int(), F::size_spec()) + le_bytes(
            self.trigger_value.r.as_int(), F::size_spec())
    }

    /// A row-sized byte chunk decodes to a row iff all six field encodings
    /// are residues of the field. (Any 5-byte match-key half is in range.)
    pub open spec fn chunk_ok(c: Seq<u8>) -> bool {
        let s = F::size_spec() as int;
        &&& c.len() == Self::size_spec()
        &&& le_val(c.subrange(10, 10 + s)) < F::modulus()
        &&& le_val(c.subrange(10 + s, 10 + 2 * s)) < F::modulus()
        &&& le_val(c.subrange(10 + 2 * s, 10 + 3 * s)) < F::modulus()
        &&& le_val(c.subrange(10 + 3 * s, 10 + 4 * s)) < F::modulus()
        &&& le_val(c.subrange(10 + 4 * s, 10 + 5 * s)) < F::modulus()
        &&& le_val(c.subrange(10 + 5 * s, 10 + 6 * s)) < F::modulus()
    }

    /// Number of bytes of one serialized row.
    pub fn size_in_bytes() -> (n: usize)
        ensures
            n == Self::size_spec(),
    {
        proof {
            F::field_facts();
        }
        10 + 6 * F::size_in_bytes()
    }

    /// Append the wire image of this row to `buf`.
    pub fn serialize(&self, buf: &mut Vec<u8>)
        requires
            self.valid(),
        ensures
            final(buf)@ == old(buf)@ + self.row_bytes(),
    {
        proof {
            crate::ff::lemma_pow256_le_match_key();
        }
        write_le(buf, self.mk_shares.l, 5);
        write_le(buf, self.mk_shares.r, 5);
        self.is_trigger_bit.l.write_bytes(buf);
        self.is_trigger_bit.r.write_bytes(buf);
        self.breakdown_key.l.write_bytes(buf);
        self.breakdown_key.r.write_bytes(buf);
        self.trigger_value.l.write_bytes(buf);
        self.trigger_value.r.write_bytes(buf);
        proof {
            assert(buf@ =~= old(buf)@ + self.row_bytes());
        }
    }

    /// Decode one row from `b` at offset `pos`.
    #[verifier::rlimit(50)]
    pub fn read_at(b: &[u8], pos: usize) -> (r: Result<Self, Error>)
        requires
            pos + Self::size_spec() <= b@.len(),
        ensures
            ({
                let c = b@.subrange(pos as int, pos + Self::size_spec());
                match r {
                    Ok(row) => row.valid() && Self::chunk_ok(c) && row.row_bytes() == c,
                    Err(e) => e == Error::FieldOverflow && !Self::chunk_ok(c),
                }
            }),
    {
        proof {
            F::field_facts();
        }
        let blen = b.len();
        proof {
            assert(pos + Self::size_spec() <= blen);
        }
        let s = F::size_in_bytes();
        let ghost c = b@.subrange(pos as int, pos + Self::size_spec());
        let mk_l = read_le(b, pos, 5);
        let mk_r = read_le(b, pos + 5, 5);
        proof {
            crate::ff::lemma_pow256_le_match_key();
            lemma_le_val_bound(b@.subrange(pos as int, pos + 5));
            lemma_le_val_bound(b@.subrange(pos + 5, pos + 10));
        }
        let t_l = match F::read_bytes(b, pos + 10) {
            Ok(v) => v,
            Err(e) => {
                proof {
                    assert(c.subrange(10, 10 + F::size_spec() as int) =~= b@.subrange(
                        pos + 10, pos + 10 + F::size_spec() as int));
                }
                return Err(e);
            },
        };
        let t_r = match F::read_bytes(b, pos + 10 + s) {
            Ok(v) => v,
            Err(e) => {
                proof {
                    assert(c.subrange(10 + F::size_spec() as int, 10 + 2 * F::size_spec() as int) =~= b@
                        .subrange(pos + 10 + F::size_spec() as int, pos + 10 + 2 * F::size_spec() as int));
                }
                return Err(e);
            },
        };
        let b_l = match F::read_bytes(b, pos + 10 + 2 * s) {
            Ok(v) => v,
            Err(e) => {
                proof {
                    assert(c.subrange(10 + 2 * F::size_spec() as int, 10 + 3 * F::size_spec() as int) =~= b@
                        .subrange(pos + 10 + 2 * F::size_spec() as int, pos + 10 + 3 * F::size_spec() as int));
                }
                return Err(e);
            },
        };
        let b_r = match F::read_bytes(b, pos + 10 + 3 * s) {
            Ok(v) => v,
            Err(e) => {
                proof {
                    assert(c.subrange(10 + 3 * F::size_spec() as int, 10 + 4 * F::size_spec() as int) =~= b@
                        .subrange(pos + 10 + 3 * F::size_spec() as int, pos + 10 + 4 * F::size_spec() as int));
                }
                return Err(e);
            },
        };
        let v_l = match F::read_bytes(b, pos + 10 + 4 * s) {
            Ok(v) => v,
            Err(e) => {
                proof {
                    assert(c.subrange(10 + 4 * F::size_spec() as int, 10 + 5 * F::size_spec() as int) =~= b@
                        .subrange(pos + 10 + 4 * F::size_spec() as int, pos + 10 + 5 * F::size_spec() as int));
                }
                return Err(e);
            },
        };
        let v_r = match F::read_bytes(b, pos + 10 + 5 * s) {
            Ok(v) => v,
            Err(e) => {
                proof {
                    assert(c.subrange(10 + 5 * F::size_spec() as int, 10 + 6 * F::size_spec() as int) =~= b@
                        .subrange(pos + 10 + 5 * F::size_spec() as int, pos + 10 + 6 * F::size_spec() as int));
                }
                return Err(e);
            },
        };
        let row = IPAInputRow {
            mk_shares: XorReplicated { l: mk_l, r: mk_r },
            is_trigger_bit: Replicated { l: t_l, r: t_r },
            breakdown_key: Replicated { l: b_l, r: b_r },
            trigger_value: Replicated { l: v_l, r: v_r },
        };
        proof {
            let s = F::size_spec() as int;
            lemma_chunk_split::<F>(b@, pos as int);
            lemma_le_bytes_of_le_val(c.subrange(0, 5));
            lemma_le_bytes_of_le_val(c.subrange(5, 10));
            lemma_le_bytes_of_le_val(c.subrange(10, 10 + s));
            lemma_le_bytes_of_le_val(c.subrange(10 + s, 10 + 2 * s));
            lemma_le_bytes_of_le_val(c.subrange(10 + 2 * s, 10 + 3 * s));
            lemma_le_bytes_of_le_val(c.subrange(10 + 3 * s, 10 + 4 * s));
            lemma_le_bytes_of_le_val(c.subrange(10 + 4 * s, 10 + 5 * s));
            lemma_le_bytes_of_le_val(c.subrange(10 + 5 * s, 10 + 6 * s));
            assert(row.row_bytes() =~= c);
        }
        Ok(row)
    }

    /// Decode one row. Fails with `InputMisaligned` when the buffer is not
    /// exactly one row long, and with `FieldOverflow` when a field encoding
    /// is out of range; succeeds on all other inputs.
    pub fn deserialize(b: &[u8]) -> (r: Result<Self, Error>)
        ensures
            ({
                match r {
                    Ok(row) => row.valid() && Self::chunk_ok(b@) && row.row_bytes() == b@,
                    Err(Error::InputMisaligned) => b@.len() != Self::size_spec(),
                    Err(Error::FieldOverflow) => b@.len() == Self::size_spec() && !Self::chunk_ok(
                        b@),
                }
            }),
            b@.len() == Self::size_spec() && Self::chunk_ok(b@) ==> r is Ok,
    {
        let n = b.len();
        if n != Self::size_in_bytes() {
            return Err(Error::InputMisaligned);
        }
        let r = Self::read_at(b, 0);
        proof {
            assert(b@.subrange(0, Self::size_spec() as int) =~= b@);
        }
        r
    }

    /// Split an aligned buffer into rows, decoding each in order.
    ///
    /// Returns `InputMisaligned` exactly when the buffer length is not a
    /// multiple of the row size, and `FieldOverflow` exactly when some row
    /// chunk holds an out-of-range field encoding.
    pub fn from_byte_slice(input: &[u8]) -> (r: Result<Vec<Self>, Error>)
        ensures
            ({
                let sz = Self::size_spec() as int;
                match r {
                    Ok(rows) => {
                        &&& input@.len() as int % sz == 0
                        &&& rows@.len() == input@.len() as int / sz
                        &&& forall|i: int| 0 <= i < rows@.len() ==> (#[trigger] rows@[i]).valid()
                            && rows@[i].row_bytes() == input@.subrange(i * sz, (i + 1) * sz)
                    },
                    Err(Error::InputMisaligned) => input@.len() as int % sz != 0,
                    Err(Error::FieldOverflow) => input@.len() as int % sz == 0 && exists|i: int|
                        0 <= i < input@.len() as int / sz && !Self::chunk_ok(
                            #[trigger] input@.subrange(i * sz, (i + 1) * sz)),
                }
            }),
    {
        proof {
            F::field_facts();
        }
        let sz = Self::size_in_bytes();
        let n = input.len();
        if n % sz != 0 {
            return Err(Error::InputMisaligned);
        }
        let count = n / sz;
        let mut rows: Vec<Self> = Vec::new();
        let mut i: usize = 0;
        let mut offset: usize = 0;
        while i < count
            invariant
                0 < sz == Self::size_spec(),
                n == input@.len(),
                n as int % (sz as int) == 0,
                count == n as int / sz as int,
                i <= count,
                offset == i * sz,
                rows@.len() == i,
                forall|j: int| 0 <= j < i ==> (#[trigger] rows@[j]).valid()
                    && rows@[j].row_bytes() == input@.subrange(j * (sz as int), (j + 1) * (
                    sz as int)),
            decreases count - i,
        {
            proof {
                vstd::arithmetic::div_mod::lemma_fundamental_div_mod(n as int, sz as int);
                vstd::arithmetic::mul::lemma_mul_is_distributive_add_other_way(
                    sz as int, i as int, 1);
                vstd::arithmetic::mul::lemma_mul_inequality(i as int + 1, count as int, sz as int);
                assert(offset + sz <= n);
            }
            let row = match Self::read_at(input, offset) {
                Ok(row) => row,
                Err(e) => {
                    proof {
                        assert(input@.subrange(i * (sz as int), (i + 1) * (sz as int)) =~= input@
                            .subrange(offset as int, offset + Self::size_spec()));
                    }
                    return Err(e);
                },
            };
            proof {
                assert(input@.subrange(i * (sz as int), (i + 1) * (sz as int)) =~= input@
                    .subrange(offset as int, offset + Self::size_spec()));
            }
            rows.push(row);
            i = i + 1;
            offset = offset + sz;
        }
        Ok(rows)
    }
}

proof fn lemma_chunk_split<F: Field>(b: Seq<u8>, pos: int)
    requires
        0 <= pos,
        pos + IPAInputRow::<F>::size_spec() <= b.len(),
    ensures
        ({
            let c = b.subrange(pos, pos + IPAInputRow::<F>::size_spec());
            let s = F::size_spec() as int;
            &&& c.subrange(0, 5) =~= b.subrange(pos, pos + 5)
            &&& c.subrange(5, 10) =~= b.subrange(pos + 5, pos + 10)
            &&& c.subrange(10, 10 + s) =~= b.subrange(pos + 10, pos + 10 + s)
            &&& c.subrange(10 + s, 10 + 2 * s) =~= b.subrange(pos + 10 + s, pos + 10 + 2 * s)
            &&& c.subrange(10 + 2 * s, 10 + 3 * s) =~= b.subrange(
                pos + 10 + 2 * s, pos + 10 + 3 * s)
            &&& c.subrange(10 + 3 * s, 10 + 4 * s) =~= b.subrange(
                pos + 10 + 3 * s, pos + 10 + 4 * s)
            &&& c.subrange(10 + 4 * s, 10 + 5 * s) =~= b.subrange(
                pos + 10 + 4 * s, pos + 10 + 5 * s)
            &&& c.subrange(10 + 5 * s, 10 + 6 * s) =~= b.subrange(
                pos + 10 + 5 * s, pos + 10 + 6 * s)
        }),
{
}

/// Serializing a valid row always yields a chunk that decodes again: the
/// wire image is exactly one row long and every field encoding is in range.
pub proof fn lemma_row_bytes_parse_ok<F: Field>(row: IPAInputRow<F>)
    requires
        row.valid(),
    ensures
        IPAInputRow::<F>::chunk_ok(row.row_bytes()),
        row.row_bytes().len() == IPAInputRow::<F>::size_spec(),
{
    F::field_facts();
    row.is_trigger_bit.l.valid_facts();
    row.is_trigger_bit.r.valid_facts();
    row.breakdown_key.l.valid_facts();
    row.breakdown_key.r.valid_facts();
    row.trigger_value.l.valid_facts();
    row.trigger_value.r.valid_facts();
    crate::ff::lemma_pow256_le_match_key();
    let c = row.row_bytes();
    let s = F::size_spec() as int;
    lemma_le_bytes_len(row.mk_shares.l as int, 5);
    lemma_le_bytes_len(row.mk_shares.r as int, 5);
    lemma_le_bytes_len(row.is_trigger_bit.l.as_int(), F::size_spec());
    lemma_le_bytes_len(row.is_trigger_bit.r.as_int(), F::size_spec());
    lemma_le_bytes_len(row.breakdown_key.l.as_int(), F::size_spec());
    lemma_le_bytes_len(row.breakdown_key.r.as_int(), F::size_spec());
    lemma_le_bytes_len(row.trigger_value.l.as_int(), F::size_spec());
    lemma_le_bytes_len(row.trigger_value.r.as_int(), F::size_spec());
    assert(c.subrange(10, 10 + s) =~= le_bytes(row.is_trigger_bit.l.as_int(), F::size_spec()));
    assert(c.subrange(10 + s, 10 + 2 * s) =~= le_bytes(
        row.is_trigger_bit.r.as_int(), F::size_spec()));
    assert(c.subrange(10 + 2 * s, 10 + 3 * s) =~= le_bytes(
        row.breakdown_key.l.as_int(), F::size_spec()));
    assert(c.subrange(10 + 3 * s, 10 + 4 * s) =~= le_bytes(
        row.breakdown_key.r.as_int(), F::size_spec()));
    assert(c.subrange(10 + 4 * s, 10 + 5 * s) =~= le_bytes(
        row.trigger_value.l.as_int(), F::size_spec()));
    assert(c.subrange(10 + 5 * s, 10 + 6 * s) =~= le_bytes(
        row.trigger_value.r.as_int(), F::size_spec()));
    lemma_le_val_of_le_bytes(row.is_trigger_bit.l.as_int(), F::size_spec());
    lemma_le_val_of_le_bytes(row.is_trigger_bit.r.as_int(), F::size_spec());
    lemma_le_val_of_le_bytes(row.breakdown_key.l.as_int(), F::size_spec());
    lemma_le_val_of_le_bytes(row.breakdown_key.r.as_int(), F::size_spec());
    lemma_le_val_of_le_bytes(row.trigger_value.l.as_int(), F::size_spec());
    lemma_le_val_of_le_bytes(row.trigger_value.r.as_int(), F::size_spec());
}

/// The wire image pins the row down: two valid rows with the same bytes are
/// the same row. Together with `lemma_row_bytes_parse_ok` and the contracts
/// of `serialize` and `deserialize`, deserializing a serialized row gives
/// the row back.
pub proof fn lemma_row_bytes_injective<F: Field>(r1: IPAInputRow<F>, r2: IPAInputRow<F>)
    requires
        r1.valid(),
        r2.valid(),
        r1.row_bytes() == r2.row_bytes(),
    ensures
        r1 == r2,
{
    F::field_facts();
    crate::ff::lemma_pow256_le_match_key();
    lemma_row_fields_from_bytes(r1);
    lemma_row_fields_from_bytes(r2);
    r1.is_trigger_bit.l.valid_facts();
    r2.is_trigger_bit.l.valid_facts();
    r1.is_trigger_bit.l.eq_from_int(r2.is_trigger_bit.l);
    r1.is_trigger_bit.r.eq_from_int(r2.is_trigger_bit.r);
    r1.breakdown_key.l.eq_from_int(r2.breakdown_key.l);
    r1.breakdown_key.r.eq_from_int(r2.breakdown_key.r);
    r1.trigger_value.l.eq_from_int(r2.trigger_value.l);
    r1.trigger_value.r.eq_from_int(r2.trigger_value.r);
}

proof fn lemma_row_fields_from_bytes<F: Field>(row: IPAInputRow<F>)
    requires
        row.valid(),
    ensures
        ({
            let c = row.row_bytes();
            let s = F::size_spec() as int;
            &&& row.mk_shares.l as int == le_val(c.subrange(0, 5))
            &&& row.mk_shares.r as int == le_val(c.subrange(5, 10))
            &&& row.is_trigger_bit.l.as_int() == le_val(c.subrange(10, 10 + s))
            &&& row.is_trigger_bit.r.as_int() == le_val(c.subrange(10 + s, 10 + 2 * s))
            &&& row.breakdown_key.l.as_int() == le_val(c.subrange(10 + 2 * s, 10 + 3 * s))
            &&& row.breakdown_key.r.as_int() == le_val(c.subrange(10 + 3 * s, 10 + 4 * s))
            &&& row.trigger_value.l.as_int() == le_val(c.subrange(10 + 4 * s, 10 + 5 * s))
            &&& row.trigger_value.r.as_int() == le_val(c.subrange(10 + 5 * s, 10 + 6 * s))
        }),
{
    F::field_facts();
    crate::ff::lemma_pow256_le_match_key();
    row.is_trigger_bit.l.valid_facts();
    row.is_trigger_bit.r.valid_facts();
    row.breakdown_key.l.valid_facts();
    row.breakdown_key.r.valid_facts();
    row.trigger_value.l.valid_facts();
    row.trigger_value.r.valid_facts();
    let c = row.row_bytes();
    let s = F::size_spec() as int;
    lemma_le_bytes_len(row.mk_shares.l as int, 5);
    lemma_le_bytes_len(row.mk_shares.r as int, 5);
    lemma_le_bytes_len(row.is_trigger_bit.l.as_int(), F::size_spec());
    lemma_le_bytes_len(row.is_trigger_bit.r.as_int(), F::size_spec());
    lemma_le_bytes_len(row.breakdown_key.l.as_int(), F::size_spec());
    lemma_le_bytes_len(row.breakdown_key.r.as_int(), F::size_spec());
    lemma_le_bytes_len(row.trigger_value.l.as_int(), F::size_spec());
    lemma_le_bytes_len(row.trigger_value.r.as_int(), F::size_spec());
    assert(c.subrange(0, 5) =~= le_bytes(row.mk_shares.l as int, 5));
    assert(c.subrange(5, 10) =~= le_bytes(row.mk_shares.r as int, 5));
    assert(c.subrange(10, 10 + s) =~= le_bytes(row.is_trigger_bit.l.as_int(), F::size_spec()));
    assert(c.subrange(10 + s, 10 + 2 * s) =~= le_bytes(
        row.is_trigger_bit.r.as_int(), F::size_spec()));
    assert(c.subrange(10 + 2 * s, 10 + 3 * s) =~= le_bytes(
        row.breakdown_key.l.as_int(), F::size_spec()));
    assert(c.subrange(10 + 3 * s, 10 + 4 * s) =~= le_bytes(
        row.breakdown_key.r.as_int(), F::size_spec()));
    assert(c.subrange(10 + 4 * s, 10 + 5 * s) =~= le_bytes(
        row.trigger_value.l.as_int(), F::size_spec()));
    assert(c.subrange(10 + 5 * s, 10 + 6 * s) =~= le_bytes(
        row.trigger_value.r.as_int(), F::size_spec()));
    lemma_le_val_of_le_bytes(row.mk_shares.l as int, 5);
    lemma_le_val_of_le_bytes(row.mk_shares.r as int, 5);
    lemma_le_val_of_le_bytes(row.is_trigger_bit.l.as_int(), F::size_spec());
    lemma_le_val_of_le_bytes(row.is_trigger_bit.r.as_int(), F::size_spec());
    lemma_le_val_of_le_bytes(row.breakdown_key.l.as_int(), F::size_spec());
    lemma_le_val_of_le_bytes(row.breakdown_key.r.as_int(), F::size_spec());
    lemma_le_val_of_le_bytes(row.trigger_value.l.as_int(), F::size_spec());
    lemma_le_val_of_le_bytes(row.trigger_value.r.as_int(), F::size_spec());
}

/// The three helpers' XOR shares of record `i`'s match key, as one world
/// view.
pub open spec fn mk_world<F: Field>(
    a: IPAInputRow<F>,
    b: IPAInputRow<F>,
    c: IPAInputRow<F>,
) -> crate::secret_sharing::XorWorldShare {
    crate::secret_sharing::XorWorldShare { h0: a.mk_shares, h1: b.mk_shares, h2: c.mk_shares }
}

/// Three replicated shares assembled into one world view.
pub open spec fn fe_world<F: Field>(
    x: Replicated<F>,
    y: Replicated<F>,
    z: Replicated<F>,
) -> WorldShare<F> {
    WorldShare { h0: x, h1: y, h2: z }
}

/// The three helpers' input row vectors are equally long and every field's
/// triple of shares forms a consistent world sharing.
pub open spec fn rows3_wf<F: Field>(
    a: Seq<IPAInputRow<F>>,
    b: Seq<IPAInputRow<F>>,
    c: Seq<IPAInputRow<F>>,
) -> bool {
    &&& a.len() == b.len()
    &&& b.len() == c.len()
    &&& forall|i: int| 0 <= i < a.len() ==> {
        &&& (#[trigger] mk_world(a[i], b[i], c[i])).wf()
        &&& fe_world(a[i].is_trigger_bit, b[i].is_trigger_bit, c[i].is_trigger_bit).wf()
        &&& fe_world(a[i].breakdown_key, b[i].breakdown_key, c[i].breakdown_key).wf()
        &&& fe_world(a[i].trigger_value, b[i].trigger_value, c[i].trigger_value).wf()
    }
}

/// The reconstructed match keys of the helpers' input rows.
pub open spec fn ipa_mk_keys<F: Field>(
    a: Seq<IPAInputRow<F>>,
    b: Seq<IPAInputRow<F>>,
    c: Seq<IPAInputRow<F>>,
) -> Seq<int> {
    Seq::new(a.len(), |i: int| mk_world(a[i], b[i], c[i]).recon() as int)
}

/// The reconstructed trigger bits of the helpers' input rows.
pub open spec fn ipa_triggers<F: Field>(
    a: Seq<IPAInputRow<F>>,
    b: Seq<IPAInputRow<F>>,
    c: Seq<IPAInputRow<F>>,
) -> Seq<int> {
    Seq::new(a.len(), |i: int| fe_world(
        a[i].is_trigger_bit, b[i].is_trigger_bit, c[i].is_trigger_bit).recon())
}

/// The reconstructed breakdown keys of the helpers' input rows.
pub open spec fn ipa_bds<F: Field>(
    a: Seq<IPAInputRow<F>>,
    b: Seq<IPAInputRow<F>>,
    c: Seq<IPAInputRow<F>>,
) -> Seq<int> {
    Seq::new(a.len(), |i: int| fe_world(
        a[i].breakdown_key, b[i].breakdown_key, c[i].breakdown_key).recon())
}

/// The reconstructed trigger values of the helpers' input rows.
pub open spec fn ipa_tvs<F: Field>(
    a: Seq<IPAInputRow<F>>,
    b: Seq<IPAInputRow<F>>,
    c: Seq<IPAInputRow<F>>,
) -> Seq<int> {
    Seq::new(a.len(), |i: int| fe_world(
        a[i].trigger_value, b[i].trigger_value, c[i].trigger_value).recon())
}

/// The witness relation of the pipeline: `sigma` is a stable match-key
/// sort of the helpers' inputs; `mks`, `th`, `bh`, `vh` are the sorted
/// match keys, trigger bits, breakdown keys and trigger values; `hh` are
/// the derived same-user helper bits; and every output credit is the
/// per-key field sum of the capped, accumulated credits.
pub open spec fn ipa_pipeline_spec<F: Field>(
    a: Seq<IPAInputRow<F>>,
    b: Seq<IPAInputRow<F>>,
    c: Seq<IPAInputRow<F>>,
    cap: int,
    out: Seq<crate::attribution::AggregateCreditOutputRow<F>>,
    sigma: Seq<int>,
    mks: Seq<int>,
    th: Seq<int>,
    hh: Seq<int>,
    bh: Seq<int>,
    vh: Seq<int>,
) -> bool {
    let n = a.len() as int;
    let m = F::modulus();
    let keys = ipa_mk_keys(a, b, c);
    &&& crate::sort::is_rank_permutation(keys, sigma)
    &&& mks.len() == n && th.len() == n && hh.len() == n && bh.len() == n && vh.len() == n
    &&& forall|i: int| 0 <= i < n ==> mks[#[trigger] sigma[i]] == keys[i] && th[sigma[i]]
        == ipa_triggers(a, b, c)[i] && bh[sigma[i]] == ipa_bds(a, b, c)[i] && vh[sigma[i]]
        == ipa_tvs(a, b, c)[i]
    &&& forall|p: int| 0 <= p < n ==> #[trigger] hh[p] == if p > 0 && mks[p] == mks[p - 1] {
        1int
    } else {
        0int
    }
    &&& forall|k: int| 0 <= k < out.len() ==> (#[trigger] out[k]).credit.recon()
        == crate::attribution::key_sum(
        bh,
        crate::attribution::capped_seq(hh, crate::attribution::acc_seq(th, hh, vh, m), cap),
        k,
        n,
        m,
    )
}

/// An input row after modulus conversion: the match key as a vector of
/// arithmetically shared bits, the other fields unchanged.
#[derive(Clone, Debug)]
pub struct IPAModulusConvertedInputRow<F: Field> {
    pub mk_shares: Vec<WorldShare<F>>,
    pub is_trigger_bit: WorldShare<F>,
    pub breakdown_key: WorldShare<F>,
    pub trigger_value: WorldShare<F>,
}

impl<F: Field> crate::sort::Resharable<F> for IPAModulusConvertedInputRow<F> {
    /// The reconstructed match-key bits followed by the trigger bit, the
    /// breakdown key and the trigger value.
    open spec fn recon_view(self) -> Seq<int> {
        crate::boolean::recon_seq(self.mk_shares@) + seq![
            self.is_trigger_bit.recon(),
            self.breakdown_key.recon(),
            self.trigger_value.recon(),
        ]
    }

    open spec fn wf(self) -> bool {
        &&& self.mk_shares@.len() == crate::secret_sharing::MATCH_KEY_BITS
        &&& crate::boolean::all_wf(self.mk_shares@)
        &&& self.is_trigger_bit.wf()
        &&& self.breakdown_key.wf()
        &&& self.trigger_value.wf()
    }

    /// Reshare every component, the match-key bits one by one, preserving
    /// all reconstructed values.
    fn reshare(&self, to_helper: crate::secret_sharing::Role, prss: &mut crate::secret_sharing::Prss) -> (r: Self) {
        let n = self.mk_shares.len();
        let mut mk: Vec<WorldShare<F>> = Vec::new();
        let mut b: usize = 0;
        while b < n
            invariant
                b <= n,
                n == self.mk_shares@.len(),
                crate::boolean::all_wf(self.mk_shares@),
                mk@.len() == b,
                forall|q: int| 0 <= q < b ==> (#[trigger] mk@[q]).wf() && mk@[q].recon()
                    == self.mk_shares@[q].recon(),
            decreases n - b,
        {
            mk.push(crate::basics::reshare_one(&self.mk_shares[b], to_helper, prss));
            b = b + 1;
        }
        let r = IPAModulusConvertedInputRow {
            mk_shares: mk,
            is_trigger_bit: crate::basics::reshare_one(&self.is_trigger_bit, to_helper, prss),
            breakdown_key: crate::basics::reshare_one(&self.breakdown_key, to_helper, prss),
            trigger_value: crate::basics::reshare_one(&self.trigger_value, to_helper, prss),
        };
        proof {
            assert(crate::boolean::recon_seq(r.mk_shares@) =~= crate::boolean::recon_seq(
                self.mk_shares@));
            assert(r.recon_view() =~= self.recon_view());
        }
        r
    }
}

/// The full attribution pipeline over the in-process three-party world.
///
/// The helpers' match-key shares are converted to arithmetic bit shares,
/// the rows are sorted obliviously and stably by match key, the same-user
/// helper bits are derived from adjacent sorted rows, credits are
/// accumulated onto source rows, capped per user, and aggregated per
/// breakdown key.
///
/// The contract: the output has exactly `max_breakdown_key` rows whose
/// breakdown keys reconstruct to `0, 1, ...` in order, and there is a
/// stable match-key sort of the inputs under which each output credit is
/// exactly the per-key field sum of the capped, accumulated credits.
pub fn ipa<F: Field>(
    h0_rows: &Vec<IPAInputRow<F>>,
    h1_rows: &Vec<IPAInputRow<F>>,
    h2_rows: &Vec<IPAInputRow<F>>,
    per_user_credit_cap: u32,
    max_breakdown_key: u128,
    num_multi_bits: u32,
    prss: &mut crate::secret_sharing::Prss,
) -> (r: Result<Vec<crate::attribution::AggregateCreditOutputRow<F>>, Error>)
    requires
        rows3_wf(h0_rows@, h1_rows@, h2_rows@),
        per_user_credit_cap < F::modulus(),
        max_breakdown_key < F::modulus(),
        num_multi_bits >= 1,
    ensures
        r is Ok,
        ({
            let out = r.unwrap();
            let n = h0_rows@.len() as int;
            let m = F::modulus();
            let keys = ipa_mk_keys(h0_rows@, h1_rows@, h2_rows@);
            &&& out@.len() == max_breakdown_key
            &&& forall|k: int| 0 <= k < out@.len() ==> (#[trigger] out@[k]).wf() && out@[
                k].breakdown_key.recon() == k
            &&& exists|sigma: Seq<int>, mks: Seq<int>, th: Seq<int>, hh: Seq<int>, bh: Seq<
                int>, vh: Seq<int>|
                ipa_pipeline_spec(
                    h0_rows@, h1_rows@, h2_rows@, per_user_credit_cap as int, out@, sigma,
                    mks, th, hh, bh, vh)
        }),
{
    proof {
        F::field_facts();
        crate::ff::lemma_pow2i_value_40();
    }
    let n = h0_rows.len();
    let ghost keys = ipa_mk_keys(h0_rows@, h1_rows@, h2_rows@);
    let ghost m = F::modulus();

    // Assemble the world view of each match key.
    let mut mks_vec: Vec<crate::secret_sharing::XorWorldShare> = Vec::new();
    let mut i: usize = 0;
    while i < n
        invariant
            i <= n,
            n == h0_rows@.len(),
            rows3_wf(h0_rows@, h1_rows@, h2_rows@),
            mks_vec@.len() == i,
            forall|q: int| 0 <= q < i ==> #[trigger] mks_vec@[q] == mk_world(
                h0_rows@[q], h1_rows@[q], h2_rows@[q]),
        decreases n - i,
    {
        mks_vec.push(crate::secret_sharing::XorWorldShare {
            h0: h0_rows[i].mk_shares,
            h1: h1_rows[i].mk_shares,
            h2: h2_rows[i].mk_shares,
        });
        i = i + 1;
    }

    // Modulus conversion, bit-major.
    let cols = crate::boolean::convert_all_bits::<F>(&mks_vec, prss);
    proof {
        assert forall|q: int| 0 <= q < n implies crate::sort::record_keys(
            cols@, n as nat)[q] == keys[q] by {
            let w = mks_vec@[q];
            let rs = Seq::new(cols@.len(), |b: int| cols@[b]@[q].recon());
            assert forall|b: int| 0 <= b < 40 implies rs[b] == crate::boolean::bit_seq_of(
                w.recon(), 40)[b] by {
                assert(cols@[b]@[q].recon() == w.recon_bit(b as u64));
            }
            assert(rs =~= crate::boolean::bit_seq_of(w.recon(), 40));
            crate::boolean::lemma_bits_value_of_bit_seq(w.recon(), 40);
            crate::secret_sharing::lemma_xor_recon_bound(w);
            vstd::arithmetic::div_mod::lemma_small_mod(
                w.recon() as nat, crate::ff::pow2i(40) as nat);
        }
        assert(crate::sort::record_keys(cols@, n as nat) =~= keys);
    }

    // Sort permutation over all match-key bits.
    let ranks = crate::sort::generate_permutation_and_reveal_shuffled(
        &cols, num_multi_bits, n);
    let ghost sigma = crate::sort::as_ints(ranks@);

    // Record-major modulus-converted rows.
    let converted = crate::attribution::transpose(&cols);
    let mut rows: Vec<IPAModulusConvertedInputRow<F>> = Vec::new();
    let mut i2: usize = 0;
    while i2 < n
        invariant
            i2 <= n,
            n == h0_rows@.len(),
            rows3_wf(h0_rows@, h1_rows@, h2_rows@),
            cols@.len() == crate::secret_sharing::MATCH_KEY_BITS,
            forall|b: int| 0 <= b < cols@.len() ==> (#[trigger] cols@[b])@.len() == n,
            forall|b: int, q: int| 0 <= b < cols@.len() && 0 <= q < n ==> (#[trigger] cols@[
                b]@[q]).wf(),
            converted@.len() == n,
            forall|q: int| 0 <= q < n ==> (#[trigger] converted@[q])@.len() == cols@.len(),
            forall|q: int, b: int| 0 <= q < n && 0 <= b < cols@.len() ==> #[trigger] converted@[
                q]@[b] == cols@[b]@[q],
            rows@.len() == i2,
            forall|q: int| 0 <= q < i2 ==> (#[trigger] rows@[q]).wf(),
            forall|q: int, b: int| 0 <= q < i2 && 0 <= b < 40 ==> (#[trigger] rows@[
                q].mk_shares@[b]) == cols@[b]@[q],
            forall|q: int| 0 <= q < i2 ==> (#[trigger] rows@[q]).is_trigger_bit == fe_world(
                h0_rows@[q].is_trigger_bit, h1_rows@[q].is_trigger_bit,
                h2_rows@[q].is_trigger_bit) && rows@[q].breakdown_key == fe_world(
                h0_rows@[q].breakdown_key, h1_rows@[q].breakdown_key,
                h2_rows@[q].breakdown_key) && rows@[q].trigger_value == fe_world(
                h0_rows@[q].trigger_value, h1_rows@[q].trigger_value,
                h2_rows@[q].trigger_value),
        decreases n - i2,
    {
        let mut mkb: Vec<WorldShare<F>> = Vec::new();
        let mut b: usize = 0;
        let nb = converted[i2].len();
        while b < nb
            invariant
                b <= nb,
                i2 < n,
                n == converted@.len(),
                nb == converted@[i2 as int]@.len(),
                mkb@.len() == b,
                forall|q: int| 0 <= q < b ==> #[trigger] mkb@[q] == converted@[i2 as int]@[q],
            decreases nb - b,
        {
            mkb.push(converted[i2][b]);
            b = b + 1;
        }
        let row = IPAModulusConvertedInputRow {
            mk_shares: mkb,
            is_trigger_bit: WorldShare {
                h0: h0_rows[i2].is_trigger_bit,
                h1: h1_rows[i2].is_trigger_bit,
                h2: h2_rows[i2].is_trigger_bit,
            },
            breakdown_key: WorldShare {
                h0: h0_rows[i2].breakdown_key,
                h1: h1_rows[i2].breakdown_key,
                h2: h2_rows[i2].breakdown_key,
            },
            trigger_value: WorldShare {
                h0: h0_rows[i2].trigger_value,
                h1: h1_rows[i2].trigger_value,
                h2: h2_rows[i2].trigger_value,
            },
        };
        proof {
            assert forall|bq: int| 0 <= bq < 40 implies (#[trigger] row.mk_shares@[bq])
                == cols@[bq]@[i2 as int] by {
                assert(row.mk_shares@[bq] == converted@[i2 as int]@[bq]);
            }
            assert forall|bq: int| 0 <= bq < row.mk_shares@.len() implies (#[trigger] row
                .mk_shares@[bq]).wf() by {
                assert(row.mk_shares@[bq] == cols@[bq]@[i2 as int]);
            }
            assert(crate::boolean::all_wf(row.mk_shares@));
            assert(mk_world(h0_rows@[i2 as int], h1_rows@[i2 as int], h2_rows@[i2 as int]).wf());
            assert(row.is_trigger_bit == fe_world(h0_rows@[i2 as int].is_trigger_bit,
                h1_rows@[i2 as int].is_trigger_bit, h2_rows@[i2 as int].is_trigger_bit));
            assert(row.wf());
        }
        rows.push(row);
        i2 = i2 + 1;
    }

    // Apply the sort permutation.
    let sorted = crate::sort::apply_sort_permutation(&rows, &ranks, prss);
    proof {
        assert forall|k: int| 0 <= k < n implies (#[trigger] sorted@[k]).wf() by {
            assert(crate::sort::holds_value(sigma, k));
            let i0 = choose|z: int| 0 <= z < sigma.len() && #[trigger] sigma[z] == k;
            assert(sorted@[sigma[i0]].wf());
        }
    }

    // Helper bits: 1 exactly when the adjacent sorted rows carry the same
    // match key.
    let mut att: Vec<crate::attribution::AttributionInputRow<F>> = Vec::new();
    let mut p: usize = 0;
    while p < n
        invariant
            p <= n,
            n == sorted@.len(),
            forall|q: int| 0 <= q < n ==> (#[trigger] sorted@[q]).wf(),
            att@.len() == p,
            forall|q: int| 0 <= q < p ==> (#[trigger] att@[q]).wf(),
            forall|q: int| 0 <= q < p ==> (#[trigger] att@[q]).is_trigger_bit == sorted@[
                q].is_trigger_bit && att@[q].breakdown_key == sorted@[q].breakdown_key
                && att@[q].credit == sorted@[q].trigger_value,
            forall|q: int| 1 <= q < p ==> (#[trigger] att@[q]).helper_bit.recon() == if
                crate::boolean::recon_seq(sorted@[q - 1].mk_shares@) == crate::boolean::recon_seq(
                sorted@[q].mk_shares@) {
                1int
            } else {
                0int
            },
            p >= 1 ==> att@[0].helper_bit.recon() == 0,
        decreases n - p,
    {
        let hb: WorldShare<F> = if p == 0 {
            crate::boolean::share_bit(0, prss)
        } else {
            crate::boolean::bitwise_equal(&sorted[p - 1].mk_shares, &sorted[p].mk_shares, prss)
        };
        att.push(crate::attribution::AttributionInputRow {
            is_trigger_bit: sorted[p].is_trigger_bit,
            helper_bit: hb,
            breakdown_key: sorted[p].breakdown_key,
            credit: sorted[p].trigger_value,
        });
        p = p + 1;
    }

    // Accumulate, cap and aggregate.
    let accumulated = crate::attribution::accumulate_credit(&att, prss);
    let capped = crate::attribution::credit_capping(&accumulated, per_user_credit_cap, prss);
    let result = crate::attribution::aggregate_credit(
        &capped, max_breakdown_key, num_multi_bits, prss);

    proof {
        let a = h0_rows@;
        let b = h1_rows@;
        let c = h2_rows@;
        let ni = n as int;
        let mks = Seq::new(n as nat, |q: int| crate::boolean::bits_value(
            crate::boolean::recon_seq(sorted@[q].mk_shares@)));
        let th = crate::attribution::att_triggers(att@);
        let hh = crate::attribution::att_helpers(att@);
        let bh = crate::attribution::att_bds(att@);
        let vh = crate::attribution::att_credits(att@);

        // Every sorted position is hit by the permutation, and the sorted
        // views carry the input field values.
        assert forall|q: int| 0 <= q < ni implies mks[#[trigger] sigma[q]] == keys[q] && th[
            sigma[q]] == ipa_triggers(a, b, c)[q] && bh[sigma[q]] == ipa_bds(a, b, c)[q] && vh[
            sigma[q]] == ipa_tvs(a, b, c)[q] && (forall|bq: int| 0 <= bq < 40
            ==> #[trigger] crate::boolean::recon_seq(sorted@[sigma[q]].mk_shares@)[bq]
            == crate::boolean::recon_seq(rows@[q].mk_shares@)[bq]) by {
            assert(0 <= sigma[q] < ni);
            let sv = sorted@[sigma[q]].recon_view();
            let rv = rows@[q].recon_view();
            assert(sv == rv);
            assert(sorted@[sigma[q]].mk_shares@.len() == 40);
            assert(rows@[q].mk_shares@.len() == 40);
            assert forall|bq: int| 0 <= bq < 40 implies #[trigger] crate::boolean::recon_seq(
                sorted@[sigma[q]].mk_shares@)[bq] == crate::boolean::recon_seq(
                rows@[q].mk_shares@)[bq] by {
                assert(sv[bq] == crate::boolean::recon_seq(sorted@[sigma[q]].mk_shares@)[bq]);
                assert(rv[bq] == crate::boolean::recon_seq(rows@[q].mk_shares@)[bq]);
            }
            assert(crate::boolean::recon_seq(sorted@[sigma[q]].mk_shares@) =~=
                crate::boolean::recon_seq(rows@[q].mk_shares@));
            // match key value
            let w = mk_world(a[q], b[q], c[q]);
            let rsq = crate::boolean::recon_seq(rows@[q].mk_shares@);
            assert forall|bq: int| 0 <= bq < 40 implies rsq[bq] == crate::boolean::bit_seq_of(
                w.recon(), 40)[bq] by {
                assert(rows@[q].mk_shares@[bq] == cols@[bq]@[q]);
                assert(cols@[bq]@[q].recon() == mks_vec@[q].recon_bit(bq as u64));
            }
            assert(rsq =~= crate::boolean::bit_seq_of(w.recon(), 40));
            crate::boolean::lemma_bits_value_of_bit_seq(w.recon(), 40);
            crate::secret_sharing::lemma_xor_recon_bound(w);
            vstd::arithmetic::div_mod::lemma_small_mod(
                w.recon() as nat, crate::ff::pow2i(40) as nat);
            // other fields through the view
            assert(sv[40] == sorted@[sigma[q]].is_trigger_bit.recon());
            assert(rv[40] == rows@[q].is_trigger_bit.recon());
            assert(sv[41] == sorted@[sigma[q]].breakdown_key.recon());
            assert(rv[41] == rows@[q].breakdown_key.recon());
            assert(sv[42] == sorted@[sigma[q]].trigger_value.recon());
            assert(rv[42] == rows@[q].trigger_value.recon());
        }

        // Helper bits follow match-key equality of adjacent sorted rows.
        assert forall|q: int| 0 <= q < ni implies #[trigger] hh[q] == if q > 0 && mks[q]
            == mks[q - 1] {
            1int
        } else {
            0int
        } by {
            if q > 0 {
                let s1 = crate::boolean::recon_seq(sorted@[q - 1].mk_shares@);
                let s2 = crate::boolean::recon_seq(sorted@[q].mk_shares@);
                if s1 == s2 {
                    assert(mks[q] == mks[q - 1]);
                } else {
                    if mks[q] == mks[q - 1] {
                        // equal values force equal bit sequences
                        assert(crate::sort::holds_value(sigma, q));
                        assert(crate::sort::holds_value(sigma, q - 1));
                        let i1 = choose|z: int| 0 <= z < sigma.len() && #[trigger] sigma[z]
                            == q - 1;
                        let i2c = choose|z: int| 0 <= z < sigma.len() && #[trigger] sigma[z]
                            == q;
                        assert forall|bq: int| 0 <= bq < s1.len() implies 0 <= #[trigger] s1[
                            bq] <= 1 by {
                            assert(s1[bq] == crate::boolean::recon_seq(
                                rows@[i1].mk_shares@)[bq]);
                            assert(rows@[i1].mk_shares@[bq] == cols@[bq]@[i1]);
                            assert(cols@[bq]@[i1].recon() == mks_vec@[i1].recon_bit(bq as u64));
                            let wr = mks_vec@[i1].recon();
                            let bb = bq as u64;
                            assert((wr >> bb) & 1 <= 1) by (bit_vector);
                        }
                        assert forall|bq: int| 0 <= bq < s2.len() implies 0 <= #[trigger] s2[
                            bq] <= 1 by {
                            assert(s2[bq] == crate::boolean::recon_seq(
                                rows@[i2c].mk_shares@)[bq]);
                            assert(rows@[i2c].mk_shares@[bq] == cols@[bq]@[i2c]);
                            assert(cols@[bq]@[i2c].recon() == mks_vec@[i2c].recon_bit(
                                bq as u64));
                            let wr = mks_vec@[i2c].recon();
                            let bb = bq as u64;
                            assert((wr >> bb) & 1 <= 1) by (bit_vector);
                        }
                        crate::boolean::lemma_bits_value_injective(s1, s2);
                        assert(false);
                    }
                }
            }
        }

        // The final credits compose the stage specifications.
        let out = result.unwrap();
        assert(crate::attribution::att_bds(capped@) =~= bh);
        assert(crate::attribution::att_credits(capped@) =~= crate::attribution::capped_seq(
            hh, crate::attribution::acc_seq(th, hh, vh, m), per_user_credit_cap as int)) by {
            assert(crate::attribution::att_helpers(accumulated@) =~= hh);
            assert(crate::attribution::att_credits(accumulated@) =~=
                crate::attribution::acc_seq(th, hh, vh, m));
            assert forall|q: int| 0 <= q < ni implies crate::attribution::att_credits(
                capped@)[q] == crate::attribution::capped_seq(
                hh, crate::attribution::acc_seq(th, hh, vh, m),
                per_user_credit_cap as int)[q] by {
                assert(crate::attribution::att_credits(capped@)[q]
                    == crate::attribution::capped_credit(
                    crate::attribution::att_helpers(accumulated@),
                    crate::attribution::att_credits(accumulated@),
                    per_user_credit_cap as int, q));
            }
        }
        assert(mks.len() == ni && th.len() == ni && hh.len() == ni && bh.len() == ni
            && vh.len() == ni);
        assert(ipa_pipeline_spec(
            a, b, c, per_user_credit_cap as int, out@, sigma, mks, th, hh, bh, vh));
    }
    result
}

} // verus!
