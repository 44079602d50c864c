use ipa_core::ff::{Field, Fp31, Fp32BitPrime};
use ipa_core::ipa::{ipa, IPAInputRow};
use ipa_core::receive::{ReceivePoll, ReceiveRecords, StreamKey};
use ipa_core::secret_sharing::{Prss, Role, WorldShare, XorWorldShare};
use ipa_core::steps::StepPath;

fn share_rows<F: Field>(
    records: &[(u64, u128, u128, u128)],
    prss: &mut Prss,
) -> [Vec<IPAInputRow<F>>; 3] {
    let mut h0: Vec<IPAInputRow<F>> = Vec::new();
    let mut h1: Vec<IPAInputRow<F>> = Vec::new();
    let mut h2: Vec<IPAInputRow<F>> = Vec::new();
    for &(match_key, is_trigger, breakdown_key, trigger_value) in records {
        let mk = XorWorldShare::share_with(match_key % (1u64 << 40), prss);
        let t = WorldShare::share_with(F::from_u128(is_trigger), prss);
        let b = WorldShare::share_with(F::from_u128(breakdown_key), prss);
        let v = WorldShare::share_with(F::from_u128(trigger_value), prss);
        h0.push(IPAInputRow {
            mk_shares: mk.h0,
            is_trigger_bit: t.h0,
            breakdown_key: b.h0,
            trigger_value: v.h0,
        });
        h1.push(IPAInputRow {
            mk_shares: mk.h1,
            is_trigger_bit: t.h1,
            breakdown_key: b.h1,
            trigger_value: v.h1,
        });
        h2.push(IPAInputRow {
            mk_shares: mk.h2,
            is_trigger_bit: t.h2,
            breakdown_key: b.h2,
            trigger_value: v.h2,
        });
    }
    [h0, h1, h2]
}

#[test]
pub fn semi_honest() {
    const PER_USER_CAP: u32 = 3;
    const EXPECTED: &[[u128; 2]] = &[[0, 0], [1, 2], [2, 3]];
    const MAX_BREAKDOWN_KEY: u128 = 3;
    const NUM_MULTI_BITS: u32 = 3;

    // match key, is_trigger, breakdown_key, trigger_value
    let records: [(u64, u128, u128, u128); 5] = [
        (12345, 0, 1, 0),
        (12345, 0, 2, 0),
        (68362, 0, 1, 0),
        (12345, 1, 0, 5),
        (68362, 1, 0, 2),
    ];

    let mut prss = Prss::new(20221101);
    let [h0, h1, h2] = share_rows::<Fp31>(&records, &mut prss);

    let result = ipa::<Fp31>(
        &h0,
        &h1,
        &h2,
        PER_USER_CAP,
        MAX_BREAKDOWN_KEY,
        NUM_MULTI_BITS,
        &mut prss,
    )
    .unwrap();

    assert_eq!(EXPECTED.len(), result.len());
    for (i, expected) in EXPECTED.iter().enumerate() {
        let bd = result[i].breakdown_key.reconstruct().as_u128();
        let credit = result[i].credit.reconstruct().as_u128();
        assert_eq!(*expected, [bd, credit]);
    }
}

#[test]
pub fn random_ipa_no_result_check() {
    const BATCHSIZE: u64 = 20;
    const PER_USER_CAP: u32 = 10;
    const MAX_BREAKDOWN_KEY: u128 = 8;
    const MAX_TRIGGER_VALUE: u128 = 5;
    const NUM_MULTI_BITS: u32 = 3;

    let max_match_key: u64 = BATCHSIZE / 10;

    let mut rng = Prss::new(0xf00d);
    let mut records: Vec<(u64, u128, u128, u128)> = Vec::new();
    for _ in 0..BATCHSIZE {
        let match_key = rng.next_u64() % max_match_key;
        let is_trigger = (rng.next_u64() % 2) as u128;
        let breakdown_key = (rng.next_u64() as u128) % MAX_BREAKDOWN_KEY;
        let trigger_value = (rng.next_u64() as u128) % MAX_TRIGGER_VALUE;
        records.push((match_key, is_trigger, breakdown_key, trigger_value));
    }

    let mut prss = Prss::new(20221102);
    let [h0, h1, h2] = share_rows::<Fp32BitPrime>(&records, &mut prss);

    let result = ipa::<Fp32BitPrime>(
        &h0,
        &h1,
        &h2,
        PER_USER_CAP,
        MAX_BREAKDOWN_KEY,
        NUM_MULTI_BITS,
        &mut prss,
    )
    .unwrap()
    .len();

    assert_eq!(MAX_BREAKDOWN_KEY, result as u128);
}

#[test]
fn single_user_below_cap_gets_full_sum() {
    let records: [(u64, u128, u128, u128); 3] = [(777, 0, 2, 0), (777, 1, 0, 1), (777, 1, 0, 1)];
    let mut prss = Prss::new(5);
    let [h0, h1, h2] = share_rows::<Fp31>(&records, &mut prss);
    let result = ipa::<Fp31>(&h0, &h1, &h2, 5, 3, 3, &mut prss).unwrap();
    let credits: Vec<u128> = result.iter().map(|r| r.credit.reconstruct().as_u128()).collect();
    assert_eq!(vec![0u128, 0, 2], credits);
}

#[test]
fn empty_input_yields_zero_credits_for_every_key() {
    let records: [(u64, u128, u128, u128); 0] = [];
    let mut prss = Prss::new(6);
    let [h0, h1, h2] = share_rows::<Fp31>(&records, &mut prss);
    let result = ipa::<Fp31>(&h0, &h1, &h2, 3, 4, 3, &mut prss).unwrap();
    assert_eq!(4, result.len());
    for (k, row) in result.iter().enumerate() {
        assert_eq!(k as u128, row.breakdown_key.reconstruct().as_u128());
        assert_eq!(0, row.credit.reconstruct().as_u128());
    }
}

#[test]
fn receive_records_proxies_in_order() {
    let key = StreamKey { peer: Role::H1, step: StepPath::root() };
    let mut rx: ReceiveRecords<u64> = ReceiveRecords::new(key);
    assert_eq!(ReceivePoll::Pending, rx.poll_next(None));
    assert_eq!(ReceivePoll::Pending, rx.poll_next(None));
    assert_eq!(ReceivePoll::Item(10), rx.poll_next(Some(vec![10, 20, 30])));
    assert_eq!(ReceivePoll::Item(20), rx.poll_next(None));
    assert_eq!(ReceivePoll::Item(30), rx.poll_next(None));
    assert_eq!(ReceivePoll::End, rx.poll_next(None));
    assert_eq!(ReceivePoll::End, rx.poll_next(None));
}
