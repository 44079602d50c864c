use ipa_core::error::Error;
use ipa_core::ff::{Field, Fp31, Fp32BitPrime};
use ipa_core::ipa::IPAInputRow;
use ipa_core::secret_sharing::{Prss, Replicated, WorldShare, XorReplicated, XorWorldShare};

fn share_row_fp31(
    match_key: u64,
    is_trigger_bit: u128,
    breakdown_key: u128,
    trigger_value: u128,
    prss: &mut Prss,
) -> [IPAInputRow<Fp31>; 3] {
    let mk = XorWorldShare::share_with(match_key % (1u64 << 40), prss);
    let t = WorldShare::share_with(Fp31::from_u128(is_trigger_bit), prss);
    let b = WorldShare::share_with(Fp31::from_u128(breakdown_key), prss);
    let v = WorldShare::share_with(Fp31::from_u128(trigger_value), prss);
    [
        IPAInputRow { mk_shares: mk.h0, is_trigger_bit: t.h0, breakdown_key: b.h0, trigger_value: v.h0 },
        IPAInputRow { mk_shares: mk.h1, is_trigger_bit: t.h1, breakdown_key: b.h1, trigger_value: v.h1 },
        IPAInputRow { mk_shares: mk.h2, is_trigger_bit: t.h2, breakdown_key: b.h2, trigger_value: v.h2 },
    ]
}

#[test]
fn row_size_matches_layout() {
    // ten bytes of match-key shares plus six one-byte field encodings
    assert_eq!(16, IPAInputRow::<Fp31>::size_in_bytes());
    // ten bytes of match-key shares plus six four-byte field encodings
    assert_eq!(34, IPAInputRow::<Fp32BitPrime>::size_in_bytes());
}

#[test]
fn serde_round_trip_two_rows() {
    let mut prss = Prss::new(42);
    let [a, b, _] = share_row_fp31(123456789, 1, 5, 30, &mut prss);
    let size = IPAInputRow::<Fp31>::size_in_bytes();
    let mut buf: Vec<u8> = Vec::new();
    a.serialize(&mut buf);
    b.serialize(&mut buf);
    assert_eq!(2 * size, buf.len());
    let rows = IPAInputRow::<Fp31>::from_byte_slice(&buf).unwrap();
    assert_eq!(vec![a, b], rows);
    // re-serializing yields a byte-exact buffer
    let mut buf2: Vec<u8> = Vec::new();
    for row in &rows {
        row.serialize(&mut buf2);
    }
    assert_eq!(buf, buf2);
}

#[test]
fn serde_round_trip_wide_field() {
    let mut prss = Prss::new(7);
    let mk = XorWorldShare::share_with((1u64 << 40) - 1, &mut prss);
    let t = WorldShare::share_with(Fp32BitPrime::from_u128(1), &mut prss);
    let b = WorldShare::share_with(Fp32BitPrime::from_u128(0xdead_beef), &mut prss);
    let v = WorldShare::share_with(Fp32BitPrime::from_u128(0x1234_5678), &mut prss);
    let row = IPAInputRow::<Fp32BitPrime> {
        mk_shares: mk.h1,
        is_trigger_bit: t.h1,
        breakdown_key: b.h1,
        trigger_value: v.h1,
    };
    let mut buf: Vec<u8> = Vec::new();
    row.serialize(&mut buf);
    let back = IPAInputRow::<Fp32BitPrime>::deserialize(&buf).unwrap();
    assert_eq!(row, back);
}

#[test]
fn single_row_deserialize_matches_from_byte_slice() {
    let mut prss = Prss::new(99);
    let [a, _, _] = share_row_fp31(555, 0, 2, 0, &mut prss);
    let mut buf: Vec<u8> = Vec::new();
    a.serialize(&mut buf);
    let one = IPAInputRow::<Fp31>::deserialize(&buf).unwrap();
    let many = IPAInputRow::<Fp31>::from_byte_slice(&buf).unwrap();
    assert_eq!(vec![one], many);
}

#[test]
fn unaligned_buffer_is_rejected() {
    let buf = vec![0u8; 17];
    assert_eq!(
        Err(Error::InputMisaligned),
        IPAInputRow::<Fp31>::from_byte_slice(&buf)
    );
    assert_eq!(
        Err(Error::InputMisaligned),
        IPAInputRow::<Fp31>::deserialize(&buf)
    );
}

#[test]
fn out_of_range_field_encoding_is_rejected() {
    // a full-size chunk whose first field byte is not a residue mod 31
    let mut buf = vec![0u8; 16];
    buf[10] = 31;
    assert_eq!(
        Err(Error::FieldOverflow),
        IPAInputRow::<Fp31>::from_byte_slice(&buf)
    );
    assert_eq!(
        Err(Error::FieldOverflow),
        IPAInputRow::<Fp31>::deserialize(&buf)
    );
}

#[test]
fn serialized_layout_is_little_endian_in_field_order() {
    let row = IPAInputRow::<Fp31> {
        mk_shares: XorReplicated { l: 0x0102030405, r: 0x0607080910 },
        is_trigger_bit: Replicated { l: Fp31::from_u128(1), r: Fp31::from_u128(2) },
        breakdown_key: Replicated { l: Fp31::from_u128(3), r: Fp31::from_u128(4) },
        trigger_value: Replicated { l: Fp31::from_u128(5), r: Fp31::from_u128(6) },
    };
    let mut buf: Vec<u8> = Vec::new();
    row.serialize(&mut buf);
    assert_eq!(
        vec![
            0x05, 0x04, 0x03, 0x02, 0x01, // mk left, little-endian
            0x10, 0x09, 0x08, 0x07, 0x06, // mk right
            1, 2, 3, 4, 5, 6, // the six field bytes
        ],
        buf
    );
}
