//! Scoring engine: maps a validator's trailing metric window to a score.
use vstd::prelude::*;

verus! {

/// What the metrics feed recorded for one validator in one epoch.
#[derive(Clone, Copy, PartialEq, Eq, Structural, Debug)]
pub struct EpochMetrics {
    /// Vote credits earned in the epoch.
    pub credits: u64,
    /// Commission in percent (values above 100 count as 100).
    pub commission: u8,
    /// Whether the validator was delinquent during the epoch.
    pub delinquent: bool,
}

/// Pool-level thresholds that the scoring engine applies.
#[derive(Clone, Copy, PartialEq, Eq, Structural, Debug)]
pub struct ScoringParams {
    /// Number of trailing epochs that form the scoring window.
    pub scoring_window: usize,
    /// Highest commission (percent) a validator may charge in the window.
    pub commission_max: u8,
    /// Least active stake, in lamports, a validator must hold.
    pub minimum_stake: u64,
}

/// A score, higher is better, and whether the validator is disqualified.
#[derive(Clone, Copy, PartialEq, Eq, Structural, Debug)]
pub struct ScoreOutcome {
    pub score: u64,
    pub disqualified: bool,
}

/// The lowest possible score.
pub const FLOOR_SCORE: u64 = 0;

/// Commission as a percentage in `0..=100`.
pub open spec fn clamped_commission(c: u8) -> int {
    if c > 100 { 100 } else { c as int }
}

/// Credits minus the commission's share of them.
pub open spec fn net_reward(m: EpochMetrics) -> int {
    m.credits - (m.credits * clamped_commission(m.commission)) / 100
}

/// The last `w` epochs of `h` (oldest first).
pub open spec fn window(h: Seq<Option<EpochMetrics>>, w: int) -> Seq<Option<EpochMetrics>> {
    h.subrange(h.len() - w, h.len() as int)
}

/// Sum of net rewards of the present entries of `s`.
pub open spec fn sum_net(s: Seq<Option<EpochMetrics>>) -> int
    decreases s.len(),
{
    if s.len() == 0 {
        0
    } else {
        sum_net(s.drop_last()) + match s.last() {
            Some(m) => net_reward(m),
            None => 0,
        }
    }
}

/// Every epoch of the window has an entry, no more than `cmax` commission and
/// no delinquency.
pub open spec fn window_clean(s: Seq<Option<EpochMetrics>>, cmax: u8) -> bool {
    forall|i: int|
        0 <= i < s.len() ==> (#[trigger] s[i]).is_some() && s[i].unwrap().commission <= cmax
            && !s[i].unwrap().delinquent
}

/// Whether a validator keeps a real score rather than the floor.
pub open spec fn qualifies(
    h: Seq<Option<EpochMetrics>>,
    blacklisted: bool,
    stake: u64,
    p: ScoringParams,
) -> bool {
    &&& !blacklisted
    &&& p.scoring_window > 0
    &&& h.len() >= p.scoring_window
    &&& stake >= p.minimum_stake
    &&& window_clean(window(h, p.scoring_window as int), p.commission_max)
}

/// The score: mean net reward over the window, or the floor when disqualified.
pub open spec fn score_of(
    h: Seq<Option<EpochMetrics>>,
    blacklisted: bool,
    stake: u64,
    p: ScoringParams,
) -> ScoreOutcome {
    if qualifies(h, blacklisted, stake, p) {
        ScoreOutcome {
            score: (sum_net(window(h, p.scoring_window as int)) / (p.scoring_window as int)) as u64,
            disqualified: false,
        }
    } else {
        ScoreOutcome { score: FLOOR_SCORE, disqualified: true }
    }
}

proof fn lemma_net_bounds(m: EpochMetrics)
    ensures
        0 <= net_reward(m) <= m.credits,
{
    let c = clamped_commission(m.commission);
    assert(0 <= m.credits * c <= m.credits * 100) by (nonlinear_arith)
        requires
            0 <= c <= 100,
    ;
}

/// Net reward of one epoch, computed without overflow.
pub fn epoch_net_reward(m: &EpochMetrics) -> (r: u64)
    ensures
        r == net_reward(*m),
{
    let c: u128 = if m.commission > 100 { 100 } else { m.commission as u128 };
    let credits = m.credits as u128;
    assert(credits * c <= credits * 100) by (nonlinear_arith)
        requires
            c <= 100,
    ;
    let share = credits * c / 100;
    proof {
        lemma_net_bounds(*m);
    }
    (credits - share) as u64
}

/// Scores one validator from its metric history (oldest epoch first), its
/// blacklist membership and its active stake. A validator that is blacklisted,
/// lacks an entry for any epoch of the window, was delinquent, charged more
/// than the commission ceiling, or holds less than the minimum stake gets the
/// floor score and is disqualified; the others score their mean net reward.
pub fn compute_score(
    history: &Vec<Option<EpochMetrics>>,
    blacklisted: bool,
    stake: u64,
    params: &ScoringParams,
) -> (r: ScoreOutcome)
    ensures
        r == score_of(history@, blacklisted, stake, *params),
{
    let w = params.scoring_window;
    if blacklisted || w == 0 || history.len() < w || stake < params.minimum_stake {
        return ScoreOutcome { score: FLOOR_SCORE, disqualified: true };
    }
    let start = history.len() - w;
    let ghost win = window(history@, w as int);
    let mut i: usize = start;
    let mut total: u128 = 0;
    while i < history.len()
        invariant
            start <= i <= history.len(),
            start == history.len() - w,
            w > 0,
            w == params.scoring_window,
            !blacklisted,
            stake >= params.minimum_stake,
            win == window(history@, w as int),
            window_clean(win.subrange(0, i - start), params.commission_max),
            total == sum_net(win.subrange(0, i - start)),
            total <= (i - start) * (u64::MAX as int),
        decreases history.len() - i,
    {
        let entry = history[i];
        assert(win.subrange(0, i + 1 - start).drop_last() =~= win.subrange(0, i - start));
        match entry {
            Some(m) => {
                if m.delinquent || m.commission > params.commission_max {
                    assert(!window_clean(win, params.commission_max)) by {
                        assert(win[i - start] == history@[i as int]);
                    }
                    return ScoreOutcome { score: FLOOR_SCORE, disqualified: true };
                }
                let n = epoch_net_reward(&m);
                assert((i - start) * (u64::MAX as int) + u64::MAX == (i + 1 - start) * (u64::MAX as int)) by (nonlinear_arith);
                assert((i + 1 - start) * (u64::MAX as int) <= history.len() * (u64::MAX as int)) by (nonlinear_arith)
                    requires i + 1 - start <= history.len();
                assert(history.len() * (u64::MAX as int) < u128::MAX) by (nonlinear_arith)
                    requires history.len() <= usize::MAX;
                total = total + n as u128;
            },
            None => {
                assert(!window_clean(win, params.commission_max)) by {
                    assert(win[i - start] == history@[i as int]);
                }
                return ScoreOutcome { score: FLOOR_SCORE, disqualified: true };
            },
        }
        i = i + 1;
        assert(window_clean(win.subrange(0, i - start), params.commission_max)) by {
            assert forall|k: int| 0 <= k < i - start implies
                (#[trigger] win.subrange(0, i - start)[k]).is_some() by {
                assert(win.subrange(0, i - start)[k] == win[k]);
                if k < i - 1 - start {
                    assert(win.subrange(0, i - 1 - start)[k] == win[k]);
                }
            }
            assert forall|k: int| 0 <= k < i - start implies
                (#[trigger] win.subrange(0, i - start)[k]).unwrap().commission <= params.commission_max
                && !win.subrange(0, i - start)[k].unwrap().delinquent by {
                assert(win.subrange(0, i - start)[k] == win[k]);
                if k < i - 1 - start {
                    assert(win.subrange(0, i - 1 - start)[k] == win[k]);
                }
            }
        }
    }
    assert(win.subrange(0, w as int) =~= win);
    assert(total as int / (w as int) <= u64::MAX) by (nonlinear_arith)
        requires total <= w * (u64::MAX as int), w > 0;
    ScoreOutcome { score: (total / (w as u128)) as u64, disqualified: false }
}

} // verus!
