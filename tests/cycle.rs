use steward::rebalance::RebalanceAction;
use steward::score::{EpochMetrics, ScoringParams};
use steward::state::{Config, Phase, StewardError, StewardState};
use steward::unstake::LiveMetrics;

fn config() -> Config {
    Config {
        scoring: ScoringParams { scoring_window: 2, commission_max: 10, minimum_stake: 0 },
        instant_unstake_commission_max: 10,
        num_epochs_between_scoring: 3,
        unstake_cap: 300,
        min_stake_per_validator: 0,
        max_stake_per_validator: u64::MAX,
        blacklist: Vec::new(),
        paused: false,
    }
}

fn history(credits: u64) -> Vec<Option<EpochMetrics>> {
    vec![Some(EpochMetrics { credits, commission: 0, delinquent: false }); 2]
}

fn healthy() -> LiveMetrics {
    LiveMetrics { delinquent: false, commission: 0, previous_commission: 0, risk_flagged: false }
}

/// Four validators with stakes 500, 0, 2500, 0 at epoch 100.
fn four_validators() -> StewardState {
    let mut s = StewardState::initialize_steward(config(), 100);
    let stakes = [500u64, 0, 2500, 0];
    for (i, &stake) in stakes.iter().enumerate() {
        s.auto_add_validator_to_pool([i as u8; 32], i as u32, stake, i + 1).unwrap();
    }
    s
}

fn scored(mut s: StewardState) -> StewardState {
    for i in 0..4 {
        s.compute_score(i, 4, &history(1000 * (i as u64 + 1))).unwrap();
    }
    s
}

/// Scores, delegates 9000 lamports, and opens the pass of epoch 101 with
/// validator 2 delinquent; ends in the rebalance phase.
fn at_rebalance() -> StewardState {
    let mut s = scored(four_validators());
    s.compute_delegations(4, 9000, 100).unwrap();
    s.idle(4, 101).unwrap();
    for i in 0..4 {
        let m = if i == 2 { LiveMetrics { delinquent: true, ..healthy() } } else { healthy() };
        s.compute_instant_unstake(i, 4, &m).unwrap();
    }
    s
}

#[test]
fn scoring_advances_only_when_all_bits_set() {
    let mut s = four_validators();
    assert_eq!(s.progress.len(), 4);
    for i in 0..3 {
        s.compute_score(i, 4, &history(1000)).unwrap();
        assert_eq!(s.phase, Phase::ComputeScores);
    }
    s.compute_score(3, 4, &history(1000)).unwrap();
    assert_eq!(s.phase, Phase::ComputeDelegations);
    assert_eq!(s.progress, vec![true; 4]);
}

#[test]
fn delegations_follow_scores() {
    let mut s = scored(four_validators());
    assert_eq!(s.validators.iter().map(|v| v.score).collect::<Vec<_>>(), vec![1000, 2000, 3000, 4000]);
    s.compute_delegations(4, 9000, 100).unwrap();
    assert_eq!(s.phase, Phase::Idle);
    assert_eq!(s.progress, vec![false; 4]);
    assert_eq!(s.cycle_start_epoch, 100);
    assert_eq!(s.validators.iter().map(|v| v.target).collect::<Vec<_>>(), vec![0, 2000, 3000, 4000]);
}

#[test]
fn idle_waits_for_a_later_epoch() {
    let mut s = scored(four_validators());
    s.compute_delegations(4, 9000, 100).unwrap();
    assert_eq!(s.idle(4, 100), Err(StewardError::NotYetEligible));
    assert_eq!(s.idle(4, 99), Err(StewardError::NotYetEligible));
    assert_eq!(s.phase, Phase::Idle);
    assert_eq!(s.idle(4, 101), Ok(()));
    assert_eq!(s.phase, Phase::ComputeInstantUnstake);
    assert_eq!(s.current_epoch, 101);
}

#[test]
fn flagged_validator_target_forced_to_zero() {
    let s = at_rebalance();
    assert_eq!(s.phase, Phase::Rebalance);
    assert!(s.validators[2].instant_unstake);
    assert_eq!(s.validators[2].target, 0);
    assert_eq!(s.validators[3].target, 4000);
    assert!(!s.validators[3].instant_unstake);
}

#[test]
fn compute_score_in_rebalance_is_invalid_phase() {
    let mut s = at_rebalance();
    let before: Vec<u64> = s.validators.iter().map(|v| v.score).collect();
    assert_eq!(s.compute_score(3, 4, &history(1)), Err(StewardError::InvalidPhase));
    assert_eq!(s.phase, Phase::Rebalance);
    assert_eq!(s.progress, vec![false; 4]);
    assert_eq!(s.validators.iter().map(|v| v.score).collect::<Vec<_>>(), before);
}

#[test]
fn rebalance_respects_unstake_cap_and_priority() {
    let mut s = at_rebalance();
    assert_eq!(s.rebalance(0, 4, 10_000), Ok(RebalanceAction::Decrease(300)));
    assert_eq!(s.unstaked_this_epoch, 300);
    assert_eq!(s.validators[0].stake, 200);
    assert_eq!(s.rebalance(1, 4, 1000), Ok(RebalanceAction::NoChange));
    assert_eq!(s.rebalance(2, 4, 10_000), Ok(RebalanceAction::NoChange));
    assert_eq!(s.validators[2].stake, 2500);
    assert_eq!(s.rebalance(3, 4, 10_000), Ok(RebalanceAction::Increase(4000)));
    assert!(s.unstaked_this_epoch <= s.config.unstake_cap);
    assert_eq!(s.phase, Phase::Idle);
}

#[test]
fn repeated_call_is_a_noop() {
    let mut s = at_rebalance();
    assert_eq!(s.rebalance(0, 4, 10_000), Ok(RebalanceAction::Decrease(300)));
    assert_eq!(s.rebalance(0, 4, 10_000), Ok(RebalanceAction::NoChange));
    assert_eq!(s.unstaked_this_epoch, 300);
    assert_eq!(s.validators[0].stake, 200);
    let mut t = four_validators();
    t.compute_score(1, 4, &history(2000)).unwrap();
    t.compute_score(1, 4, &history(9000)).unwrap();
    assert_eq!(t.validators[1].score, 2000);
    assert_eq!(t.progress, vec![false, true, false, false]);
}

#[test]
fn shrunk_pool_needs_reconciliation() {
    let mut s = four_validators();
    s.compute_score(0, 4, &history(1000)).unwrap();
    assert_eq!(s.compute_score(1, 3, &history(1000)), Err(StewardError::IndexMismatch));
    assert_eq!(s.compute_score(1, 3, &history(1000)), Err(StewardError::IndexMismatch));
    assert_eq!(s.progress, vec![true, false, false, false]);
    assert_eq!(s.index_mismatch_interrupt(7, 3), Err(StewardError::IndexOutOfRange));
    assert_eq!(s.index_mismatch_interrupt(2, 3), Ok(()));
    assert_eq!(s.validators.len(), 3);
    assert_eq!(s.progress, vec![true, false, false]);
    assert_eq!(s.validators[2].history_index, 3);
    assert_eq!(s.index_mismatch_interrupt(0, 3), Ok(()));
    assert_eq!(s.validators.len(), 3);
    assert_eq!(s.compute_score(1, 3, &history(1000)), Ok(()));
}

#[test]
fn grown_pool_needs_new_record() {
    let mut s = four_validators();
    assert_eq!(s.compute_score(0, 5, &history(1000)), Err(StewardError::IndexMismatch));
    assert_eq!(s.index_mismatch_interrupt(0, 5), Err(StewardError::IndexMismatch));
    assert_eq!(s.auto_add_validator_to_pool([9; 32], 9, 0, 7), Err(StewardError::IndexMismatch));
    assert_eq!(s.auto_add_validator_to_pool([9; 32], 9, 0, 5), Ok(()));
    assert_eq!(s.compute_score(0, 5, &history(1000)), Ok(()));
    assert_eq!(s.compute_score(5, 5, &history(1000)), Err(StewardError::IndexOutOfRange));
}

#[test]
fn paused_rejects_cycle_operations() {
    let mut s = four_validators();
    s.pause_steward();
    assert_eq!(s.compute_score(0, 4, &history(1000)), Err(StewardError::Paused));
    assert_eq!(s.index_mismatch_interrupt(0, 3), Err(StewardError::Paused));
    s.resume_steward();
    assert_eq!(s.compute_score(0, 4, &history(1000)), Ok(()));
}

#[test]
fn blacklisted_validator_scores_at_floor() {
    let mut s = four_validators();
    s.add_validator_to_blacklist(3);
    s.add_validator_to_blacklist(3);
    assert_eq!(s.config.blacklist, vec![3]);
    s.compute_score(3, 4, &history(5000)).unwrap();
    assert_eq!(s.validators[3].score, 0);
    assert!(s.validators[3].disqualified);
    s.remove_validator_from_blacklist(3);
    assert!(s.config.blacklist.is_empty());
}

#[test]
fn cycle_returns_to_scoring_after_its_epochs() {
    let mut s = at_rebalance();
    for i in 0..4 {
        s.rebalance(i, 4, 10_000).unwrap();
    }
    for epoch in 102..104u64 {
        assert_eq!(s.phase, Phase::Idle);
        s.idle(4, epoch).unwrap();
        for i in 0..4 {
            s.compute_instant_unstake(i, 4, &healthy()).unwrap();
        }
        for i in 0..4 {
            s.rebalance(i, 4, 10_000).unwrap();
        }
    }
    assert_eq!(s.phase, Phase::ComputeScores);
    assert!(s.validators.iter().all(|v| v.target == 0 && !v.instant_unstake));
    let mut s = scored(s);
    s.compute_delegations(4, 9000, 103).unwrap();
    assert_eq!(s.validators[2].target, 3000);
    assert!(!s.validators[2].instant_unstake);
}

#[test]
fn pending_indices_lists_unfinished() {
    let mut s = four_validators();
    s.compute_score(2, 4, &history(1000)).unwrap();
    assert_eq!(s.pending_indices(), vec![0, 1, 3]);
}

#[test]
fn reset_starts_a_new_cycle() {
    let mut s = at_rebalance();
    s.reset_steward_state();
    assert_eq!(s.phase, Phase::ComputeScores);
    assert_eq!(s.progress, vec![false; 4]);
    assert_eq!(s.unstaked_this_epoch, 0);
    assert!(s.validators.iter().all(|v| v.target == 0 && v.score == 0));
}

#[test]
fn states_built_by_operations_are_well_formed() {
    let mut s = at_rebalance();
    assert!(s.is_well_formed());
    s.unstaked_this_epoch = s.config.unstake_cap + 1;
    assert!(!s.is_well_formed());
    let mut t = at_rebalance();
    t.validators[2].target = 5;
    assert!(!t.is_well_formed());
}

#[test]
fn blacklisted_after_scoring_gets_no_target() {
    let mut s = scored(four_validators());
    assert!(!s.validators[3].disqualified);
    s.add_validator_to_blacklist(3);
    s.compute_delegations(4, 9000, 100).unwrap();
    assert_eq!(s.validators[3].target, 0);
    assert!(s.validators[1].target > 0 && s.validators[2].target > 0);
}

#[test]
fn reserve_short_of_all_increases_waits_for_decreases() {
    let mut s = at_rebalance();
    // validators 1 and 3 need 2000 and 4000; validator 2 still holds a surplus.
    assert_eq!(s.rebalance(1, 4, 3000), Ok(RebalanceAction::NoChange));
    assert_eq!(s.validators[1].stake, 0);
}

#[test]
fn plan_rebalance_records_nothing() {
    let mut s = at_rebalance();
    assert_eq!(s.plan_rebalance(0, 4, 10_000), Ok(RebalanceAction::Decrease(300)));
    assert_eq!(s.unstaked_this_epoch, 0);
    assert_eq!(s.validators[0].stake, 500);
    assert_eq!(s.progress, vec![false; 4]);
    assert_eq!(s.rebalance(0, 4, 10_000), Ok(RebalanceAction::Decrease(300)));
    assert_eq!(s.plan_rebalance(0, 4, 10_000), Ok(RebalanceAction::NoChange));
    assert_eq!(s.plan_rebalance(0, 3, 10_000), Err(StewardError::IndexMismatch));
}
