use steward::allocator::{allocate, compute_targets, cutoff_index, rank_validators};
use steward::rebalance::{rebalance_decision, RebalanceAction};
use steward::score::ScoreOutcome;

fn outcomes(scores: &[u64]) -> Vec<ScoreOutcome> {
    scores.iter().map(|&s| ScoreOutcome { score: s, disqualified: false }).collect()
}

#[test]
fn cutoff_is_ninety_percent_rounded_down() {
    assert_eq!(cutoff_index(0), 0);
    assert_eq!(cutoff_index(1), 0);
    assert_eq!(cutoff_index(9), 8);
    assert_eq!(cutoff_index(10), 9);
    assert_eq!(cutoff_index(25), 22);
    assert_eq!(cutoff_index(usize::MAX), ((usize::MAX as u128) * 9 / 10) as usize);
}

#[test]
fn ten_validators_lowest_gets_nothing() {
    let s = outcomes(&[100, 90, 80, 70, 60, 50, 40, 30, 20, 10]);
    let a = allocate(&s, 5400, 0, u64::MAX);
    assert_eq!(a.ranking, vec![0, 1, 2, 3, 4, 5, 6, 7, 8, 9]);
    assert_eq!(a.targets, vec![1000, 900, 800, 700, 600, 500, 400, 300, 200, 0]);
}

#[test]
fn ranking_breaks_ties_by_index() {
    let s = outcomes(&[5, 7, 5, 9, 7]);
    assert_eq!(rank_validators(&s), vec![3, 1, 4, 0, 2]);
}

#[test]
fn at_most_cutoff_validators_receive_stake() {
    let s = outcomes(&[3, 1, 4, 1, 5, 9, 2, 6, 5, 3, 5, 8]);
    let a = allocate(&s, 1_000_000, 0, u64::MAX);
    let c = cutoff_index(s.len());
    assert_eq!(c, 10);
    let nonzero = a.targets.iter().filter(|&&t| t > 0).count();
    assert_eq!(nonzero, c);
    for p in c..s.len() {
        assert_eq!(a.targets[a.ranking[p]], 0);
    }
    assert!(a.targets.iter().sum::<u64>() <= 1_000_000);
}

#[test]
fn disqualified_validators_get_zero() {
    let mut s = outcomes(&[50, 40, 30, 20, 10]);
    s[1].disqualified = true;
    let a = allocate(&s, 1200, 0, u64::MAX);
    // cutoff 4: positions 0..4 hold validators 0,1,2,3; 1 is disqualified.
    assert_eq!(a.targets, vec![600, 0, 360, 240, 0]);
}

#[test]
fn capped_excess_goes_down_the_ranking() {
    let s = outcomes(&[60, 30, 10, 0, 0, 0, 0, 0, 0, 0]);
    // cutoff 9: one lamport each first, then shares of the 991 left
    // (594, 297, 99) cut to the cap of 400; the rest goes one lamport each
    // down the band, then up to the cap in rank order.
    let a = allocate(&s, 1000, 0, 400);
    assert_eq!(a.targets, vec![400, 400, 188, 2, 2, 2, 2, 2, 2, 0]);
}

#[test]
fn every_band_validator_gets_at_least_one_lamport() {
    let s = outcomes(&[1, 1, 1, 0, 0, 0, 0, 0, 0, 0]);
    let order = rank_validators(&s);
    let t = compute_targets(&s, &order, 10, 0, u64::MAX);
    assert_eq!(t, vec![2, 1, 1, 1, 1, 1, 1, 1, 1, 0]);
    let t = compute_targets(&s, &order, 10, 0, 1);
    assert_eq!(t, vec![1, 1, 1, 1, 1, 1, 1, 1, 1, 0]);
}

#[test]
fn rebalance_decisions() {
    assert_eq!(rebalance_decision(500, 0, 1000, 300, false, 0), RebalanceAction::Decrease(300));
    assert_eq!(rebalance_decision(500, 400, 1000, 300, false, 0), RebalanceAction::Decrease(100));
    assert_eq!(rebalance_decision(500, 0, 1000, 0, false, 0), RebalanceAction::NoChange);
    assert_eq!(rebalance_decision(0, 2000, 10_000, 0, true, 2000), RebalanceAction::Increase(2000));
    assert_eq!(rebalance_decision(0, 2000, 1500, 0, false, 2000), RebalanceAction::Increase(1500));
    assert_eq!(rebalance_decision(0, 2000, 1500, 0, true, 2000), RebalanceAction::NoChange);
    assert_eq!(rebalance_decision(0, 2000, 0, 0, false, 2000), RebalanceAction::NoChange);
    assert_eq!(rebalance_decision(700, 700, 0, 0, true, 0), RebalanceAction::NoChange);
}

#[test]
fn decreases_first_when_reserve_cannot_fund_all_increases() {
    // the reserve covers this validator's deficit but not every pending one.
    assert_eq!(rebalance_decision(0, 2000, 2500, 0, true, 3000), RebalanceAction::NoChange);
    assert_eq!(rebalance_decision(0, 2000, 2500, 0, false, 3000), RebalanceAction::Increase(2000));
    assert_eq!(rebalance_decision(0, 2000, 3000, 0, true, 3000), RebalanceAction::Increase(2000));
}

#[test]
fn remainder_goes_one_lamport_at_a_time() {
    let s = outcomes(&[1, 1, 1, 0, 0, 0, 0, 0, 0, 0]);
    let a = allocate(&s, 20, 0, u64::MAX);
    // nine floors of one lamport; shares of 11 / 3 round down to 3 each; the
    // 2 left go to the first two.
    assert_eq!(a.targets, vec![5, 5, 4, 1, 1, 1, 1, 1, 1, 0]);
}

#[test]
fn floor_goes_down_the_ranking_while_stake_lasts() {
    let s = outcomes(&[60, 30, 10, 0, 0, 0, 0, 0, 0, 0]);
    let a = allocate(&s, 1000, 150, u64::MAX);
    assert_eq!(a.targets, vec![210, 180, 160, 150, 150, 150, 0, 0, 0, 0]);
    assert!(a.targets.iter().all(|&t| t == 0 || t >= 150));
}

#[test]
fn whole_band_funded_when_total_covers_minimums() {
    let s = outcomes(&[100, 1, 0]);
    let a = allocate(&s, 20, 10, u64::MAX);
    assert_eq!(a.targets, vec![10, 10, 0]);
    let a = allocate(&outcomes(&[1000, 1, 0]), 2, 0, u64::MAX);
    assert_eq!(a.targets, vec![1, 1, 0]);
}
