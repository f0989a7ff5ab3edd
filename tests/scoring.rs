use steward::score::{compute_score, epoch_net_reward, EpochMetrics, ScoringParams, FLOOR_SCORE};
use steward::unstake::{evaluate_instant_unstake, LiveMetrics};

fn m(credits: u64, commission: u8) -> Option<EpochMetrics> {
    Some(EpochMetrics { credits, commission, delinquent: false })
}

fn params(window: usize) -> ScoringParams {
    ScoringParams { scoring_window: window, commission_max: 10, minimum_stake: 100 }
}

#[test]
fn net_reward_subtracts_commission_share() {
    assert_eq!(epoch_net_reward(&EpochMetrics { credits: 1000, commission: 5, delinquent: false }), 950);
    assert_eq!(epoch_net_reward(&EpochMetrics { credits: 999, commission: 3, delinquent: false }), 970);
    assert_eq!(epoch_net_reward(&EpochMetrics { credits: 1000, commission: 150, delinquent: false }), 0);
    assert_eq!(epoch_net_reward(&EpochMetrics { credits: u64::MAX, commission: 0, delinquent: false }), u64::MAX);
}

#[test]
fn score_is_mean_net_reward_over_window() {
    let h = vec![m(1000, 5), m(2000, 10)];
    let r = compute_score(&h, false, 100, &params(2));
    assert_eq!(r.score, 1375);
    assert!(!r.disqualified);
}

#[test]
fn entries_before_window_are_ignored() {
    let h = vec![None, m(1000, 0), m(3000, 0)];
    let r = compute_score(&h, false, 500, &params(2));
    assert_eq!(r.score, 2000);
    assert!(!r.disqualified);
}

#[test]
fn missing_metrics_score_at_floor() {
    let h = vec![m(1000, 0), None];
    let r = compute_score(&h, false, 500, &params(2));
    assert_eq!(r.score, FLOOR_SCORE);
    assert!(r.disqualified);
}

#[test]
fn short_history_scores_at_floor() {
    let h = vec![m(1000, 0)];
    let r = compute_score(&h, false, 500, &params(2));
    assert_eq!(r.score, 0);
    assert!(r.disqualified);
}

#[test]
fn disqualifying_conditions() {
    let h = vec![m(1000, 0), m(1000, 0)];
    assert!(compute_score(&h, true, 500, &params(2)).disqualified);
    assert!(compute_score(&h, false, 99, &params(2)).disqualified);
    assert!(compute_score(&h, false, 500, &params(0)).disqualified);
    let high = vec![m(1000, 0), m(1000, 11)];
    assert!(compute_score(&high, false, 500, &params(2)).disqualified);
    let delinquent = vec![m(1000, 0), Some(EpochMetrics { credits: 1000, commission: 0, delinquent: true })];
    let r = compute_score(&delinquent, false, 500, &params(2));
    assert!(r.disqualified);
    assert_eq!(r.score, 0);
    assert!(!compute_score(&h, false, 500, &params(2)).disqualified);
}

#[test]
fn instant_unstake_conditions() {
    let ok = LiveMetrics { delinquent: false, commission: 5, previous_commission: 5, risk_flagged: false };
    assert!(!evaluate_instant_unstake(&ok, false, 10));
    assert!(evaluate_instant_unstake(&ok, true, 10));
    assert!(evaluate_instant_unstake(&LiveMetrics { delinquent: true, ..ok }, false, 10));
    assert!(evaluate_instant_unstake(&LiveMetrics { commission: 6, ..ok }, false, 10));
    assert!(evaluate_instant_unstake(&LiveMetrics { commission: 11, previous_commission: 11, ..ok }, false, 10));
    assert!(evaluate_instant_unstake(&LiveMetrics { risk_flagged: true, ..ok }, false, 10));
    assert!(!evaluate_instant_unstake(&LiveMetrics { commission: 4, ..ok }, false, 10));
}
