use ipa_core::attribution::{
    accumulate_credit, aggregate_credit, credit_capping, sort_by_aggregation_bit_and_breakdown_key,
    transpose, AttributionInputRow, CappedCreditsWithAggregationBit,
};
use ipa_core::boolean::share_bit;
use ipa_core::ff::{Field, Fp31};
use ipa_core::secret_sharing::{Prss, WorldShare};

const H: [u128; 2] = [0, 1];
const BD: [u128; 8] = [0, 1, 2, 3, 4, 5, 6, 7];

fn share_capped_row(
    vals: [u128; 4],
    prss: &mut Prss,
) -> CappedCreditsWithAggregationBit<Fp31> {
    CappedCreditsWithAggregationBit {
        helper_bit: WorldShare::share_with(Fp31::from_u128(vals[0]), prss),
        breakdown_key: WorldShare::share_with(Fp31::from_u128(vals[1]), prss),
        credit: WorldShare::share_with(Fp31::from_u128(vals[2]), prss),
        aggregation_bit: WorldShare::share_with(Fp31::from_u128(vals[3]), prss),
    }
}

fn share_att_row(vals: [u128; 4], prss: &mut Prss) -> AttributionInputRow<Fp31> {
    AttributionInputRow {
        is_trigger_bit: WorldShare::share_with(Fp31::from_u128(vals[0]), prss),
        helper_bit: WorldShare::share_with(Fp31::from_u128(vals[1]), prss),
        breakdown_key: WorldShare::share_with(Fp31::from_u128(vals[2]), prss),
        credit: WorldShare::share_with(Fp31::from_u128(vals[3]), prss),
    }
}

fn reconstruct_capped(row: &CappedCreditsWithAggregationBit<Fp31>) -> [u128; 4] {
    [
        row.helper_bit.reconstruct().as_u128(),
        row.breakdown_key.reconstruct().as_u128(),
        row.credit.reconstruct().as_u128(),
        row.aggregation_bit.reconstruct().as_u128(),
    ]
}

#[test]
pub fn sort() {
    // Result from CreditCapping, plus AggregateCredit pre-processing
    const RAW_INPUT: &[[u128; 4]; 27] = &[
        // helper_bit, breakdown_key, credit, aggregation_bit
        [H[1], BD[3], 0, 1],
        [H[1], BD[4], 0, 1],
        [H[1], BD[4], 18, 1],
        [H[1], BD[0], 0, 1],
        [H[1], BD[0], 0, 1],
        [H[1], BD[0], 0, 1],
        [H[1], BD[0], 0, 1],
        [H[1], BD[0], 0, 1],
        [H[1], BD[1], 0, 1],
        [H[1], BD[0], 0, 1],
        [H[1], BD[2], 2, 1],
        [H[1], BD[0], 0, 1],
        [H[1], BD[0], 0, 1],
        [H[1], BD[2], 0, 1],
        [H[1], BD[2], 10, 1],
        [H[1], BD[0], 0, 1],
        [H[1], BD[0], 0, 1],
        [H[1], BD[5], 6, 1],
        [H[1], BD[0], 0, 1],
        [H[0], BD[0], 0, 0],
        [H[0], BD[1], 0, 0],
        [H[0], BD[2], 0, 0],
        [H[0], BD[3], 0, 0],
        [H[0], BD[4], 0, 0],
        [H[0], BD[5], 0, 0],
        [H[0], BD[6], 0, 0],
        [H[0], BD[7], 0, 0],
    ];

    // sorted by aggregation_bit, then by breakdown_key
    const EXPECTED: &[[u128; 4]; 27] = &[
        [H[0], BD[0], 0, 0],
        [H[1], BD[0], 0, 1],
        [H[1], BD[0], 0, 1],
        [H[1], BD[0], 0, 1],
        [H[1], BD[0], 0, 1],
        [H[1], BD[0], 0, 1],
        [H[1], BD[0], 0, 1],
        [H[1], BD[0], 0, 1],
        [H[1], BD[0], 0, 1],
        [H[1], BD[0], 0, 1],
        [H[1], BD[0], 0, 1],
        [H[1], BD[0], 0, 1],
        [H[0], BD[1], 0, 0],
        [H[1], BD[1], 0, 1],
        [H[0], BD[2], 0, 0],
        [H[1], BD[2], 2, 1],
        [H[1], BD[2], 0, 1],
        [H[1], BD[2], 10, 1],
        [H[0], BD[3], 0, 0],
        [H[1], BD[3], 0, 1],
        [H[0], BD[4], 0, 0],
        [H[1], BD[4], 0, 1],
        [H[1], BD[4], 18, 1],
        [H[0], BD[5], 0, 0],
        [H[1], BD[5], 6, 1],
        [H[0], BD[6], 0, 0],
        [H[0], BD[7], 0, 0],
    ];

    let mut prss = Prss::new(20220905);
    let mut input: Vec<CappedCreditsWithAggregationBit<Fp31>> = Vec::new();
    for vals in RAW_INPUT {
        input.push(share_capped_row(*vals, &mut prss));
    }

    let result = sort_by_aggregation_bit_and_breakdown_key(&input, &mut prss);

    assert_eq!(RAW_INPUT.len(), result.len());

    for (i, expected) in EXPECTED.iter().enumerate() {
        assert_eq!(*expected, reconstruct_capped(&result[i]));
    }
}

#[test]
fn accumulation_attributes_trigger_runs_to_sources() {
    // is_trigger, helper_bit, breakdown_key, credit(trigger value)
    let rows = [
        [0, 0, 1, 0], // source, user block start
        [1, 1, 0, 5], // trigger of the same user
        [1, 1, 0, 2], // trigger of the same user
        [0, 0, 2, 0], // next user's source
        [1, 1, 0, 3],
    ];
    let mut prss = Prss::new(31);
    let mut input: Vec<AttributionInputRow<Fp31>> = Vec::new();
    for vals in rows {
        input.push(share_att_row(vals, &mut prss));
    }
    let out = accumulate_credit(&input, &mut prss);
    let credits: Vec<u128> = out.iter().map(|r| r.credit.reconstruct().as_u128()).collect();
    assert_eq!(vec![7u128, 0, 0, 3, 0], credits);
}

#[test]
fn capping_caps_each_user_block() {
    // after accumulation: is_trigger, helper_bit, breakdown_key, credit
    let rows = [
        [0, 0, 1, 7], // block 1: credits 7, 2 with cap 6 -> 6, 0
        [0, 1, 2, 2],
        [0, 0, 3, 4], // block 2: credits 4, 2 -> 4, 2 (under the cap)
        [0, 1, 4, 2],
        [0, 0, 5, 6], // block 3: exactly at the cap
    ];
    let mut prss = Prss::new(32);
    let mut input: Vec<AttributionInputRow<Fp31>> = Vec::new();
    for vals in rows {
        input.push(share_att_row(vals, &mut prss));
    }
    let out = credit_capping(&input, 6, &mut prss);
    let credits: Vec<u128> = out.iter().map(|r| r.credit.reconstruct().as_u128()).collect();
    assert_eq!(vec![6u128, 0, 4, 2, 6], credits);
    // breakdown keys ride along unchanged
    let bds: Vec<u128> = out.iter().map(|r| r.breakdown_key.reconstruct().as_u128()).collect();
    assert_eq!(vec![1u128, 2, 3, 4, 5], bds);
}

#[test]
fn aggregation_sums_credits_per_breakdown_key() {
    let rows = [
        [0, 0, 1, 6],
        [0, 1, 2, 3],
        [0, 0, 1, 4],
        [1, 1, 0, 0],
    ];
    let mut prss = Prss::new(33);
    let mut input: Vec<AttributionInputRow<Fp31>> = Vec::new();
    for vals in rows {
        input.push(share_att_row(vals, &mut prss));
    }
    let out = aggregate_credit(&input, 4, 3, &mut prss).unwrap();
    assert_eq!(4, out.len());
    let pairs: Vec<(u128, u128)> = out
        .iter()
        .map(|r| {
            (
                r.breakdown_key.reconstruct().as_u128(),
                r.credit.reconstruct().as_u128(),
            )
        })
        .collect();
    assert_eq!(vec![(0u128, 0u128), (1, 10), (2, 3), (3, 0)], pairs);
}

#[test]
fn aggregation_of_no_rows_is_all_zero() {
    let input: Vec<AttributionInputRow<Fp31>> = Vec::new();
    let mut prss = Prss::new(34);
    let out = aggregate_credit(&input, 5, 3, &mut prss).unwrap();
    assert_eq!(5, out.len());
    for (k, row) in out.iter().enumerate() {
        assert_eq!(k as u128, row.breakdown_key.reconstruct().as_u128());
        assert_eq!(0, row.credit.reconstruct().as_u128());
    }
}

#[test]
fn breakdown_key_bits_are_bits_and_reconstruct() {
    let mut prss = Prss::new(36);
    let keys = [0u128, 1, 6, 30];
    let mut input: Vec<CappedCreditsWithAggregationBit<Fp31>> = Vec::new();
    for k in keys {
        input.push(share_capped_row([1, k, 0, 1], &mut prss));
    }
    let out = ipa_core::attribution::bit_decompose_breakdown_key(&input, &mut prss);
    assert_eq!(keys.len(), out.len());
    for (i, bits) in out.iter().enumerate() {
        assert_eq!(Fp31::bits(), bits.len());
        let mut sum: u128 = 0;
        for (b, bit) in bits.iter().enumerate() {
            let v = bit.reconstruct().as_u128();
            assert!(v <= 1);
            sum += v << b;
        }
        assert_eq!(keys[i], sum);
    }
}

#[test]
fn transpose_swaps_rows_and_columns() {
    let mut prss = Prss::new(35);
    let mut input: Vec<Vec<WorldShare<Fp31>>> = Vec::new();
    for r in 0..2u64 {
        let mut row: Vec<WorldShare<Fp31>> = Vec::new();
        for c in 0..3u64 {
            row.push(share_bit((r + c) % 2, &mut prss));
        }
        input.push(row);
    }
    let out = transpose(&input);
    assert_eq!(3, out.len());
    for b in 0..3usize {
        assert_eq!(2, out[b].len());
        for i in 0..2usize {
            assert_eq!(
                input[i][b].reconstruct().as_u128(),
                out[b][i].reconstruct().as_u128()
            );
        }
    }
}
