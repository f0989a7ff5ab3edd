use steward::five90::{initialize, plan_stake_moves, update_stake_allocations, Five90Error, ValidatorStats};

fn stats(credits: &[u64], commission: u8) -> Vec<ValidatorStats> {
    credits
        .iter()
        .enumerate()
        .map(|(i, &c)| ValidatorStats { vote_account: [i as u8; 32], epoch_credits: c, commission })
        .collect()
}

#[test]
fn initialize_starts_at_epoch_zero() {
    let s = initialize([7; 32]);
    assert_eq!(s.admin, [7; 32]);
    assert_eq!(s.epoch, 0);
}

#[test]
fn top_ninety_percent_are_delegated() {
    let mut s = initialize([1; 32]);
    let st = stats(&[100, 200, 300, 400, 500, 600, 700, 800, 900, 1000], 5);
    let m = update_stake_allocations(&mut s, 5, &st).unwrap();
    assert_eq!(m.delegate, vec![9, 8, 7, 6, 5, 4, 3, 2, 1]);
    assert_eq!(m.undelegate, vec![0]);
    assert_eq!(s.epoch, 5);
}

#[test]
fn equal_rewards_keep_list_order() {
    let mut s = initialize([1; 32]);
    let st = stats(&[100, 100, 100, 100, 100], 0);
    let m = update_stake_allocations(&mut s, 1, &st).unwrap();
    assert_eq!(m.delegate, vec![0, 1, 2, 3]);
    assert_eq!(m.undelegate, vec![4]);
}

#[test]
fn older_epoch_is_refused() {
    let mut s = initialize([1; 32]);
    let st = stats(&[100, 200], 0);
    update_stake_allocations(&mut s, 5, &st).unwrap();
    assert!(matches!(update_stake_allocations(&mut s, 4, &st), Err(Five90Error::InvalidEpoch)));
    assert_eq!(s.epoch, 5);
    let m = update_stake_allocations(&mut s, 5, &st).unwrap();
    assert_eq!(m.delegate, vec![1]);
    assert_eq!(m.undelegate, vec![0]);
    let m = update_stake_allocations(&mut s, 6, &stats(&[100], 0)).unwrap();
    assert!(m.delegate.is_empty());
    assert_eq!(m.undelegate, vec![0]);
}

#[test]
fn accounts_without_statistics_lose_stake() {
    let mut s = initialize([1; 32]);
    let st = stats(&[100, 300, 200], 0);
    let fetched = vec![Some(st[0]), None, Some(st[1]), None, Some(st[2])];
    let m = plan_stake_moves(&mut s, 3, &fetched).unwrap();
    // three with statistics: cutoff 2, the best two are accounts 2 and 4.
    assert_eq!(m.delegate, vec![2, 4]);
    assert_eq!(m.undelegate, vec![0, 1, 3]);
    assert_eq!(s.epoch, 3);
    assert!(matches!(plan_stake_moves(&mut s, 2, &fetched), Err(Five90Error::InvalidEpoch)));
}
