use ipa_core::attribution::CappedCreditsWithAggregationBit;
use ipa_core::basics::{mul_shares, reshare_one};
use ipa_core::boolean::{bit_decompose, bitwise_equal, convert_all_bits, share_bit};
use ipa_core::ff::{Field, Fp31, Fp32BitPrime};
use ipa_core::secret_sharing::{Prss, Role, WorldShare, XorWorldShare};
use ipa_core::sort::{apply_sort_permutation, generate_permutation_and_reveal_shuffled};
use ipa_core::steps::{IPAInputRowResharableStep, Step};

#[test]
fn field_arithmetic_fp31() {
    let a = Fp31::from_u128(21);
    let b = Fp31::from_u128(19);
    assert_eq!(9, a.add(b).as_u128());
    assert_eq!(2, a.sub(b).as_u128());
    assert_eq!(29, b.sub(a).as_u128());
    assert_eq!(27, a.mul(b).as_u128());
    assert_eq!(10, a.neg().as_u128());
    assert_eq!(0, Fp31::zero().as_u128());
    assert_eq!(1, Fp31::one().as_u128());
    assert_eq!(6, Fp31::from_u128(99).as_u128());
}

#[test]
fn field_arithmetic_fp32() {
    let p: u128 = 4294967291;
    let a = Fp32BitPrime::from_u128(p - 1);
    let b = Fp32BitPrime::from_u128(2);
    assert_eq!(1, a.add(b).as_u128());
    assert_eq!(p - 3, a.sub(b).as_u128());
    assert_eq!(p - 2, a.mul(b).as_u128());
    assert_eq!(1, a.neg().as_u128());
}

#[test]
fn share_and_reconstruct() {
    let mut prss = Prss::new(11);
    for s in [0u128, 1, 17, 30] {
        let t = WorldShare::share_with(Fp31::from_u128(s), &mut prss);
        assert_eq!(s, t.reconstruct().as_u128());
    }
    for s in [0u128, 1, 4294967290] {
        let t = WorldShare::share_with(Fp32BitPrime::from_u128(s), &mut prss);
        assert_eq!(s, t.reconstruct().as_u128());
    }
}

#[test]
fn xor_share_and_reconstruct() {
    let mut prss = Prss::new(12);
    for s in [0u64, 1, 12345, (1 << 40) - 1] {
        let t = XorWorldShare::share_with(s, &mut prss);
        assert_eq!(s, t.reconstruct());
    }
}

#[test]
fn local_share_algebra() {
    let mut prss = Prss::new(19);
    let x = WorldShare::share_with(Fp31::from_u128(29), &mut prss);
    let y = WorldShare::share_with(Fp31::from_u128(7), &mut prss);
    assert_eq!(5, x.add_shares(&y).reconstruct().as_u128());
    assert_eq!(22, x.sub_shares(&y).reconstruct().as_u128());
    assert_eq!(9, y.sub_shares(&x).reconstruct().as_u128());
    assert_eq!(2, x.neg_shares().reconstruct().as_u128());
    assert_eq!(21, x.mul_by_public(Fp31::from_u128(5)).reconstruct().as_u128());
}

#[test]
fn multiplication_reconstructs_product() {
    let mut prss = Prss::new(13);
    for (x, y) in [(0u128, 5u128), (3, 4), (30, 30), (17, 2)] {
        let xs = WorldShare::share_with(Fp31::from_u128(x), &mut prss);
        let ys = WorldShare::share_with(Fp31::from_u128(y), &mut prss);
        let zs = mul_shares(&xs, &ys, &mut prss);
        assert_eq!((x * y) % 31, zs.reconstruct().as_u128());
    }
    let big: u128 = 4294967290;
    let xs = WorldShare::share_with(Fp32BitPrime::from_u128(big), &mut prss);
    let ys = WorldShare::share_with(Fp32BitPrime::from_u128(big), &mut prss);
    let zs = mul_shares(&xs, &ys, &mut prss);
    assert_eq!((big * big) % 4294967291, zs.reconstruct().as_u128());
}

#[test]
fn reshare_preserves_secret() {
    let mut prss = Prss::new(14);
    let t = WorldShare::share_with(Fp31::from_u128(23), &mut prss);
    let r0 = reshare_one(&t, Role::H0, &mut prss);
    let r1 = reshare_one(&r0, Role::H1, &mut prss);
    let r2 = reshare_one(&r1, Role::H2, &mut prss);
    assert_eq!(23, r2.reconstruct().as_u128());
}

#[test]
fn bit_decomposition_reconstructs_value() {
    let mut prss = Prss::new(15);
    for v in [0u128, 1, 2, 19, 30] {
        let t = WorldShare::share_with(Fp31::from_u128(v), &mut prss);
        let bits = bit_decompose(&t, &mut prss);
        assert_eq!(Fp31::bits(), bits.len());
        let mut sum: u128 = 0;
        for (i, b) in bits.iter().enumerate() {
            let bv = b.reconstruct().as_u128();
            assert!(bv <= 1);
            sum += bv << i;
        }
        assert_eq!(v, sum);
    }
}

#[test]
fn bitwise_equality_of_bit_vectors() {
    let mut prss = Prss::new(16);
    let a: Vec<WorldShare<Fp31>> =
        vec![share_bit(1, &mut prss), share_bit(0, &mut prss), share_bit(1, &mut prss)];
    let b: Vec<WorldShare<Fp31>> =
        vec![share_bit(1, &mut prss), share_bit(0, &mut prss), share_bit(1, &mut prss)];
    let c: Vec<WorldShare<Fp31>> =
        vec![share_bit(1, &mut prss), share_bit(1, &mut prss), share_bit(1, &mut prss)];
    assert_eq!(1, bitwise_equal(&a, &b, &mut prss).reconstruct().as_u128());
    assert_eq!(0, bitwise_equal(&a, &c, &mut prss).reconstruct().as_u128());
}

#[test]
fn modulus_conversion_yields_match_key_bits() {
    let mut prss = Prss::new(17);
    let mk: u64 = 0b1011;
    let shares = vec![XorWorldShare::share_with(mk, &mut prss)];
    let cols = convert_all_bits::<Fp31>(&shares, &mut prss);
    assert_eq!(40, cols.len());
    for (b, col) in cols.iter().enumerate() {
        assert_eq!(1, col.len());
        assert_eq!(((mk >> b) & 1) as u128, col[0].reconstruct().as_u128());
    }
}

#[test]
fn sort_permutation_is_stable() {
    let mut prss = Prss::new(18);
    // keys 1, 0, 1, 0: a stable sort sends them to ranks 2, 0, 3, 1
    let keys = [1u64, 0, 1, 0];
    let mut col: Vec<WorldShare<Fp31>> = Vec::new();
    let mut rows: Vec<CappedCreditsWithAggregationBit<Fp31>> = Vec::new();
    for (i, k) in keys.iter().enumerate() {
        let bit = share_bit(*k, &mut prss);
        col.push(bit);
        rows.push(CappedCreditsWithAggregationBit {
            helper_bit: share_bit(0, &mut prss),
            aggregation_bit: bit,
            breakdown_key: WorldShare::share_with(Fp31::from_u128(i as u128), &mut prss),
            credit: share_bit(0, &mut prss),
        });
    }
    let cols = vec![col];
    let ranks = generate_permutation_and_reveal_shuffled(&cols, 1, 4);
    assert_eq!(vec![2usize, 0, 3, 1], ranks);
    let sorted = apply_sort_permutation(&rows, &ranks, &mut prss);
    let sorted_keys: Vec<u128> =
        sorted.iter().map(|r| r.aggregation_bit.reconstruct().as_u128()).collect();
    assert_eq!(vec![0u128, 0, 1, 1], sorted_keys);
    // equal keys keep their original relative order, read off the tags
    let tags: Vec<u128> =
        sorted.iter().map(|r| r.breakdown_key.reconstruct().as_u128()).collect();
    assert_eq!(vec![1u128, 3, 0, 2], tags);
}

#[test]
fn step_segments() {
    assert_eq!("mod_conv_match_key", Step::ModulusConversionForMatchKeys.as_ref());
    assert_eq!(
        "gen_sort_permutation_from_match_keys",
        Step::GenSortPermutationFromMatchKeys.as_ref()
    );
    assert_eq!("apply_sort_permutation", Step::ApplySortPermutation.as_ref());
    assert_eq!("compute_helper_bits", Step::ComputeHelperBits.as_ref());
    assert_eq!("accumulate_credit", Step::AccumulateCredit.as_ref());
    assert_eq!("user_capping", Step::PerformUserCapping.as_ref());
    assert_eq!("aggregate_credit", Step::AggregateCredit.as_ref());
    assert_eq!("match_key_shares", IPAInputRowResharableStep::MatchKeyShares.as_ref());
    assert_eq!("is_trigger_bit", IPAInputRowResharableStep::TriggerBit.as_ref());
    assert_eq!("breakdown_key", IPAInputRowResharableStep::BreakdownKey.as_ref());
    assert_eq!("trigger_value", IPAInputRowResharableStep::TriggerValue.as_ref());
}

#[test]
fn narrowing_appends_segments() {
    let root = ipa_core::steps::StepPath::root();
    let a = root.narrow(Step::ModulusConversionForMatchKeys.as_ref());
    let b = a.narrow(IPAInputRowResharableStep::MatchKeyShares.as_ref());
    assert_eq!(0, root.segments.len());
    assert_eq!(vec!["mod_conv_match_key"], a.segments);
    assert_eq!(vec!["mod_conv_match_key", "match_key_shares"], b.segments);
}
