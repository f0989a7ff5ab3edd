//! The per-cycle state machine: scoring, delegation, and repeated
//! instant-unstake and rebalance passes, one validator index per call.
use vstd::prelude::*;
use crate::allocator::{allocate, allocation, cutoff, funds_whole_band, is_ranking, lists};
use crate::rebalance::{rebalance_decision, rebalance_of, unstaked_by, RebalanceAction};
use crate::score::{compute_score, score_of, EpochMetrics, ScoreOutcome, ScoringParams};
use crate::unstake::{evaluate_instant_unstake, must_unstake, LiveMetrics};

verus! {

/// The phases of a cycle, in their fixed cyclic order.
#[derive(Clone, Copy, PartialEq, Eq, Structural, Debug)]
pub enum Phase {
    ComputeScores,
    ComputeDelegations,
    Idle,
    ComputeInstantUnstake,
    Rebalance,
}

/// Why a cycle operation was refused. A refused operation changes nothing.
#[derive(Clone, Copy, PartialEq, Eq, Structural, Debug)]
pub enum StewardError {
    /// The operation belongs to another phase than the current one.
    InvalidPhase,
    /// The validator index is past the end of the validator list.
    IndexOutOfRange,
    /// The pool's validator list and the state's disagree in length.
    IndexMismatch,
    /// The epoch has not advanced far enough yet.
    NotYetEligible,
    /// Cycling is paused.
    Paused,
}

/// Tunable parameters of the pool.
pub struct Config {
    pub scoring: ScoringParams,
    /// Commission ceiling (percent) of the instant-unstake check.
    pub instant_unstake_commission_max: u8,
    /// Epochs a scoring cycle lasts.
    pub num_epochs_between_scoring: u64,
    /// Lamports that decreases may move in one epoch, over all validators.
    pub unstake_cap: u64,
    /// Least positive target stake of one validator.
    pub min_stake_per_validator: u64,
    /// Largest target stake of one validator.
    pub max_stake_per_validator: u64,
    /// Metrics-feed indices of validators that never receive stake.
    pub blacklist: Vec<u32>,
    pub paused: bool,
}

/// A `Config` with its blacklist as a sequence.
pub struct ConfigView {
    pub scoring: ScoringParams,
    pub instant_unstake_commission_max: u8,
    pub num_epochs_between_scoring: u64,
    pub unstake_cap: u64,
    pub min_stake_per_validator: u64,
    pub max_stake_per_validator: u64,
    pub blacklist: Seq<u32>,
    pub paused: bool,
}

impl View for Config {
    type V = ConfigView;

    open spec fn view(&self) -> ConfigView {
        ConfigView {
            scoring: self.scoring,
            instant_unstake_commission_max: self.instant_unstake_commission_max,
            num_epochs_between_scoring: self.num_epochs_between_scoring,
            unstake_cap: self.unstake_cap,
            min_stake_per_validator: self.min_stake_per_validator,
            max_stake_per_validator: self.max_stake_per_validator,
            blacklist: self.blacklist@,
            paused: self.paused,
        }
    }
}

/// One validator of the pool, addressed by its index in the list.
#[derive(Clone, Copy, Debug)]
pub struct ValidatorRecord {
    pub vote_account: [u8; 32],
    /// Its index in the metrics feed, the key of the blacklist.
    pub history_index: u32,
    pub score: u64,
    pub disqualified: bool,
    /// Target stake in lamports.
    pub target: u64,
    /// Active stake in lamports.
    pub stake: u64,
    /// Marked for instant unstake in the current scoring cycle.
    pub instant_unstake: bool,
}

/// The pool's cycle state.
pub struct StewardState {
    pub config: Config,
    pub phase: Phase,
    /// Epoch at which the current cycle's delegations were computed.
    pub cycle_start_epoch: u64,
    /// Epoch of the current instant-unstake and rebalance pass.
    pub current_epoch: u64,
    /// One bit per validator: done with the current phase.
    pub progress: Vec<bool>,
    pub validators: Vec<ValidatorRecord>,
    /// Lamports decreases have moved in the current epoch.
    pub unstaked_this_epoch: u64,
}

/// A `StewardState` with its vectors as sequences.
pub struct StewardView {
    pub config: ConfigView,
    pub phase: Phase,
    pub cycle_start_epoch: u64,
    pub current_epoch: u64,
    pub progress: Seq<bool>,
    pub validators: Seq<ValidatorRecord>,
    pub unstaked_this_epoch: u64,
}

impl View for StewardState {
    type V = StewardView;

    open spec fn view(&self) -> StewardView {
        StewardView {
            config: self.config@,
            phase: self.phase,
            cycle_start_epoch: self.cycle_start_epoch,
            current_epoch: self.current_epoch,
            progress: self.progress@,
            validators: self.validators@,
            unstaked_this_epoch: self.unstaked_this_epoch,
        }
    }
}

/// Every validator is done with the current phase.
pub open spec fn all_set(s: Seq<bool>) -> bool {
    forall|i: int| 0 <= i < s.len() ==> #[trigger] s[i]
}

/// No validator is done with the current phase.
pub open spec fn none_set(s: Seq<bool>) -> bool {
    forall|i: int| 0 <= i < s.len() ==> !#[trigger] s[i]
}

pub open spec fn cleared(n: nat) -> Seq<bool> {
    Seq::new(n, |i: int| false)
}

/// The state's invariant.
pub open spec fn wf(v: StewardView) -> bool {
    &&& v.progress.len() == v.validators.len()
    &&& v.cycle_start_epoch <= v.current_epoch
    &&& v.unstaked_this_epoch <= v.config.unstake_cap
    &&& v.phase == Phase::ComputeDelegations ==> all_set(v.progress)
    &&& v.phase == Phase::Idle ==> none_set(v.progress)
    &&& forall|i: int|
        0 <= i < v.validators.len() && (#[trigger] v.validators[i]).instant_unstake
            ==> v.validators[i].target == 0
}

/// The metrics-feed index is on the blacklist.
pub open spec fn is_blacklisted(c: ConfigView, history_index: u32) -> bool {
    c.blacklist.contains(history_index)
}

/// The error, if any, of a per-validator operation of `phase`.
pub open spec fn gate(v: StewardView, phase: Phase, pool_len: int, index: int) -> Option<StewardError> {
    if v.config.paused {
        Some(StewardError::Paused)
    } else if v.phase != phase {
        Some(StewardError::InvalidPhase)
    } else if v.validators.len() != pool_len {
        Some(StewardError::IndexMismatch)
    } else if index >= v.validators.len() {
        Some(StewardError::IndexOutOfRange)
    } else {
        None
    }
}

/// Cached scores and targets wiped for a new scoring cycle.
pub open spec fn reset_records(s: Seq<ValidatorRecord>) -> Seq<ValidatorRecord> {
    Seq::new(
        s.len(),
        |i: int| ValidatorRecord { score: 0, disqualified: true, target: 0, instant_unstake: false, ..s[i] },
    )
}

/// The transition taken when every bit of the current phase is set.
pub open spec fn complete(v: StewardView) -> StewardView {
    match v.phase {
        Phase::ComputeScores => StewardView { phase: Phase::ComputeDelegations, ..v },
        Phase::ComputeInstantUnstake => StewardView {
            phase: Phase::Rebalance,
            progress: cleared(v.progress.len()),
            ..v
        },
        Phase::Rebalance => if v.current_epoch - v.cycle_start_epoch >= v.config.num_epochs_between_scoring {
            StewardView {
                phase: Phase::ComputeScores,
                progress: cleared(v.progress.len()),
                validators: reset_records(v.validators),
                ..v
            }
        } else {
            StewardView { phase: Phase::Idle, progress: cleared(v.progress.len()), ..v }
        },
        _ => v,
    }
}

/// Moves on to the next phase when every bit is set.
pub open spec fn advance_if_complete(v: StewardView) -> StewardView {
    if all_set(v.progress) { complete(v) } else { v }
}

/// `compute_score` for validator `index`, given its metric history `h`.
pub open spec fn score_step(v: StewardView, index: int, pool_len: int, h: Seq<Option<EpochMetrics>>) -> (StewardView, Result<(), StewardError>) {
    match gate(v, Phase::ComputeScores, pool_len, index) {
        Some(e) => (v, Err(e)),
        None => if v.progress[index] {
            (v, Ok(()))
        } else {
            let rec = v.validators[index];
            let o = score_of(h, is_blacklisted(v.config, rec.history_index), rec.stake, v.config.scoring);
            let v1 = StewardView {
                validators: v.validators.update(index, ValidatorRecord { score: o.score, disqualified: o.disqualified, ..rec }),
                progress: v.progress.update(index, true),
                ..v
            };
            (advance_if_complete(v1), Ok(()))
        },
    }
}

/// The scores cached in the validator records, with every validator whose
/// metrics index is on the blacklist now counted as disqualified.
pub open spec fn scores_view(s: Seq<ValidatorRecord>, c: ConfigView) -> Seq<ScoreOutcome> {
    Seq::new(
        s.len(),
        |i: int| ScoreOutcome {
            score: s[i].score,
            disqualified: s[i].disqualified || is_blacklisted(c, s[i].history_index),
        },
    )
}

/// Records with new targets and no instant-unstake marks.
pub open spec fn with_targets(s: Seq<ValidatorRecord>, t: Seq<u64>) -> Seq<ValidatorRecord> {
    Seq::new(s.len(), |i: int| ValidatorRecord { target: t[i], instant_unstake: false, ..s[i] })
}

/// The error, if any, of an operation of `phase` that takes no index.
pub open spec fn phase_gate(v: StewardView, phase: Phase, pool_len: int) -> Option<StewardError> {
    if v.config.paused {
        Some(StewardError::Paused)
    } else if v.phase != phase {
        Some(StewardError::InvalidPhase)
    } else if v.validators.len() != pool_len {
        Some(StewardError::IndexMismatch)
    } else {
        None
    }
}

/// The state after delegations were computed with ranking `order`, handing
/// out `total` lamports, at `epoch` (an epoch older than the recorded one
/// counts as the recorded one). The cycle starts at that epoch.
pub open spec fn delegated(v: StewardView, order: Seq<usize>, total: u64, epoch: u64) -> StewardView {
    let e = if epoch > v.current_epoch { epoch } else { v.current_epoch };
    let t = allocation(scores_view(v.validators, v.config), order, total as int, v.config.min_stake_per_validator as int, v.config.max_stake_per_validator as int);
    StewardView {
        phase: Phase::Idle,
        progress: cleared(v.progress.len()),
        validators: with_targets(v.validators, t),
        cycle_start_epoch: e,
        current_epoch: e,
        unstaked_this_epoch: if epoch > v.current_epoch { 0 } else { v.unstaked_this_epoch },
        ..v
    }
}

/// `idle` at `epoch`: the next pass opens only in a later epoch than the
/// current one, and the epoch's unstake tally starts again at zero.
pub open spec fn idle_step(v: StewardView, pool_len: int, epoch: u64) -> (StewardView, Result<(), StewardError>) {
    match phase_gate(v, Phase::Idle, pool_len) {
        Some(e) => (v, Err(e)),
        None => if epoch <= v.current_epoch {
            (v, Err(StewardError::NotYetEligible))
        } else {
            (
                StewardView {
                    phase: Phase::ComputeInstantUnstake,
                    current_epoch: epoch,
                    unstaked_this_epoch: 0,
                    ..v
                },
                Ok(()),
            )
        },
    }
}

/// `compute_instant_unstake` for validator `index` with live metrics `m`: a
/// validator that must be unstaked is marked and its target becomes zero.
pub open spec fn instant_unstake_step(v: StewardView, index: int, pool_len: int, m: LiveMetrics) -> (StewardView, Result<(), StewardError>) {
    match gate(v, Phase::ComputeInstantUnstake, pool_len, index) {
        Some(e) => (v, Err(e)),
        None => if v.progress[index] {
            (v, Ok(()))
        } else {
            let rec = v.validators[index];
            let flag = must_unstake(m, is_blacklisted(v.config, rec.history_index), v.config.instant_unstake_commission_max);
            let rec1 = if flag { ValidatorRecord { target: 0, instant_unstake: true, ..rec } } else { rec };
            let v1 = StewardView {
                validators: v.validators.update(index, rec1),
                progress: v.progress.update(index, true),
                ..v
            };
            (advance_if_complete(v1), Ok(()))
        },
    }
}

/// Some validator other than `index`, not yet rebalanced in this pass,
/// holds more than its target.
pub open spec fn decreases_pending(v: StewardView, index: int) -> bool {
    exists|j: int|
        0 <= j < v.validators.len() && j != index && !v.progress[j]
            && #[trigger] v.validators[j].stake > v.validators[j].target
}

/// Sum of the deficits of the first `k` validators not yet rebalanced in
/// this pass.
pub open spec fn pending_deficit(v: StewardView, k: int) -> int
    decreases k,
{
    if k <= 0 {
        0
    } else {
        let rec = v.validators[k - 1];
        pending_deficit(v, k - 1) + if !v.progress[k - 1] && rec.target > rec.stake {
            rec.target - rec.stake
        } else {
            0
        }
    }
}

/// A validator's stake once the action is carried out.
pub open spec fn stake_after(stake: u64, a: RebalanceAction) -> u64 {
    match a {
        RebalanceAction::Increase(x) => (stake + x) as u64,
        RebalanceAction::Decrease(x) => (stake - x) as u64,
        RebalanceAction::NoChange => stake,
    }
}

/// `rebalance` for validator `index` with `reserve` lamports in the pool
/// reserve: the movement decided for it, recorded in its stake and in the
/// epoch's unstake tally.
pub open spec fn rebalance_step(v: StewardView, index: int, pool_len: int, reserve: u64) -> (StewardView, Result<RebalanceAction, StewardError>) {
    match gate(v, Phase::Rebalance, pool_len, index) {
        Some(e) => (v, Err(e)),
        None => if v.progress[index] {
            (v, Ok(RebalanceAction::NoChange))
        } else {
            let rec = v.validators[index];
            let a = rebalance_of(
                rec.stake,
                rec.target,
                reserve,
                (v.config.unstake_cap - v.unstaked_this_epoch) as u64,
                decreases_pending(v, index),
                pending_deficit(v, v.validators.len() as int),
            );
            let v1 = StewardView {
                validators: v.validators.update(index, ValidatorRecord { stake: stake_after(rec.stake, a), ..rec }),
                progress: v.progress.update(index, true),
                unstaked_this_epoch: (v.unstaked_this_epoch + unstaked_by(a)) as u64,
                ..v
            };
            (advance_if_complete(v1), Ok(a))
        },
    }
}

/// `index_mismatch_interrupt`: while the state lists more validators than
/// the pool, the stale record at `index` and its progress bit are removed. With
/// no mismatch there is nothing to do.
pub open spec fn removal_step(v: StewardView, index: int, pool_len: int) -> (StewardView, Result<(), StewardError>) {
    if v.config.paused {
        (v, Err(StewardError::Paused))
    } else if v.validators.len() == pool_len {
        (v, Ok(()))
    } else if v.validators.len() < pool_len {
        (v, Err(StewardError::IndexMismatch))
    } else if index >= v.validators.len() {
        (v, Err(StewardError::IndexOutOfRange))
    } else {
        let v1 = StewardView {
            validators: v.validators.remove(index),
            progress: v.progress.remove(index),
            ..v
        };
        (advance_if_complete(v1), Ok(()))
    }
}

/// The record of a validator that joins the pool.
pub open spec fn new_record(vote_account: [u8; 32], history_index: u32, stake: u64) -> ValidatorRecord {
    ValidatorRecord {
        vote_account,
        history_index,
        score: 0,
        disqualified: true,
        target: 0,
        stake,
        instant_unstake: false,
    }
}

/// `auto_add_validator_to_pool`: once the pool has one validator more than
/// the state, its record is appended. It counts as done only while
/// delegations are being computed.
pub open spec fn add_step(v: StewardView, rec: ValidatorRecord, pool_len: int) -> (StewardView, Result<(), StewardError>) {
    if v.config.paused {
        (v, Err(StewardError::Paused))
    } else if v.validators.len() + 1 != pool_len {
        (v, Err(StewardError::IndexMismatch))
    } else {
        (
            StewardView {
                validators: v.validators.push(rec),
                progress: v.progress.push(v.phase == Phase::ComputeDelegations),
                ..v
            },
            Ok(()),
        )
    }
}

fn blacklisted(config: &Config, history_index: u32) -> (r: bool)
    ensures
        r == is_blacklisted(config@, history_index),
{
    let mut k: usize = 0;
    while k < config.blacklist.len()
        invariant
            0 <= k <= config.blacklist.len(),
            forall|j: int| 0 <= j < k ==> config.blacklist@[j] != history_index,
        decreases config.blacklist.len() - k,
    {
        if config.blacklist[k] == history_index {
            assert(config.blacklist@[k as int] == history_index);
            return true;
        }
        k = k + 1;
    }
    false
}

impl StewardState {
    fn check_gate(&self, phase: Phase, pool_len: usize, index: usize) -> (r: Option<StewardError>)
        ensures
            r == gate(self@, phase, pool_len as int, index as int),
    {
        if self.config.paused {
            Some(StewardError::Paused)
        } else if self.phase != phase {
            Some(StewardError::InvalidPhase)
        } else if self.validators.len() != pool_len {
            Some(StewardError::IndexMismatch)
        } else if index >= self.validators.len() {
            Some(StewardError::IndexOutOfRange)
        } else {
            None
        }
    }

    fn all_progress_set(&self) -> (r: bool)
        ensures
            r == all_set(self.progress@),
    {
        let mut k: usize = 0;
        while k < self.progress.len()
            invariant
                0 <= k <= self.progress.len(),
                forall|j: int| 0 <= j < k ==> self.progress@[j],
            decreases self.progress.len() - k,
        {
            if !self.progress[k] {
                return false;
            }
            k = k + 1;
        }
        true
    }

    fn no_progress_set(&self) -> (r: bool)
        ensures
            r == none_set(self.progress@),
    {
        let mut k: usize = 0;
        while k < self.progress.len()
            invariant
                0 <= k <= self.progress.len(),
                forall|j: int| 0 <= j < k ==> !self.progress@[j],
            decreases self.progress.len() - k,
        {
            if self.progress[k] {
                return false;
            }
            k = k + 1;
        }
        true
    }

    /// Whether the state meets the invariant that the cycle operations
    /// require; a state built only through them always does.
    pub fn is_well_formed(&self) -> (r: bool)
        ensures
            r == wf(self@),
    {
        if self.progress.len() != self.validators.len() || self.cycle_start_epoch > self.current_epoch
            || self.unstaked_this_epoch > self.config.unstake_cap {
            return false;
        }
        if self.phase == Phase::ComputeDelegations && !self.all_progress_set() {
            return false;
        }
        if self.phase == Phase::Idle && !self.no_progress_set() {
            return false;
        }
        let mut k: usize = 0;
        while k < self.validators.len()
            invariant
                0 <= k <= self.validators.len(),
                forall|j: int| 0 <= j < k && (#[trigger] self.validators@[j]).instant_unstake
                    ==> self.validators@[j].target == 0,
            decreases self.validators.len() - k,
        {
            if self.validators[k].instant_unstake && self.validators[k].target != 0 {
                assert(self.validators@[k as int].instant_unstake);
                return false;
            }
            k = k + 1;
        }
        true
    }

    fn clear_progress(&mut self)
        ensures
            final(self)@ == (StewardView { progress: cleared(old(self)@.progress.len()), ..old(self)@ }),
    {
        let mut k: usize = 0;
        while k < self.progress.len()
            invariant
                0 <= k <= self.progress.len(),
                self.progress.len() == old(self).progress.len(),
                forall|j: int| 0 <= j < k ==> !self.progress@[j],
                forall|j: int| k <= j < self.progress.len() ==> self.progress@[j] == old(self).progress@[j],
                self@ == (StewardView { progress: self@.progress, ..old(self)@ }),
            decreases self.progress.len() - k,
        {
            self.progress.set(k, false);
            k = k + 1;
        }
        assert(self.progress@ =~= cleared(old(self)@.progress.len()));
    }

    fn reset_validators(&mut self)
        ensures
            final(self)@ == (StewardView { validators: reset_records(old(self)@.validators), ..old(self)@ }),
    {
        let mut k: usize = 0;
        while k < self.validators.len()
            invariant
                0 <= k <= self.validators.len(),
                self.validators.len() == old(self).validators.len(),
                forall|j: int| 0 <= j < k ==> self.validators@[j] == reset_records(old(self)@.validators)[j],
                forall|j: int| k <= j < self.validators.len() ==> self.validators@[j] == old(self).validators@[j],
                self@ == (StewardView { validators: self@.validators, ..old(self)@ }),
            decreases self.validators.len() - k,
        {
            let rec = self.validators[k];
            self.validators.set(k, ValidatorRecord { score: 0, disqualified: true, target: 0, instant_unstake: false, ..rec });
            k = k + 1;
        }
        assert(self.validators@ =~= reset_records(old(self)@.validators));
    }

    fn complete_phase_if_done(&mut self)
        ensures
            final(self)@ == advance_if_complete(old(self)@),
    {
        if !self.all_progress_set() {
            return;
        }
        match self.phase {
            Phase::ComputeScores => {
                self.phase = Phase::ComputeDelegations;
            },
            Phase::ComputeInstantUnstake => {
                self.clear_progress();
                self.phase = Phase::Rebalance;
            },
            Phase::Rebalance => {
                self.clear_progress();
                if self.current_epoch >= self.cycle_start_epoch
                    && self.current_epoch - self.cycle_start_epoch >= self.config.num_epochs_between_scoring {
                    self.reset_validators();
                    self.phase = Phase::ComputeScores;
                } else {
                    self.phase = Phase::Idle;
                }
            },
            _ => {},
        }
    }

    fn check_phase(&self, phase: Phase, pool_len: usize) -> (r: Option<StewardError>)
        ensures
            r == phase_gate(self@, phase, pool_len as int),
    {
        if self.config.paused {
            Some(StewardError::Paused)
        } else if self.phase != phase {
            Some(StewardError::InvalidPhase)
        } else if self.validators.len() != pool_len {
            Some(StewardError::IndexMismatch)
        } else {
            None
        }
    }

    fn pending_decrease(&self, index: usize) -> (r: bool)
        requires
            self.progress.len() == self.validators.len(),
        ensures
            r == decreases_pending(self@, index as int),
    {
        let mut k: usize = 0;
        while k < self.validators.len()
            invariant
                0 <= k <= self.validators.len(),
                self.progress.len() == self.validators.len(),
                forall|j: int|
                    0 <= j < k && j != index && !self.progress@[j]
                        ==> !(#[trigger] self.validators@[j].stake > self.validators@[j].target),
            decreases self.validators.len() - k,
        {
            if k != index && !self.progress[k] && self.validators[k].stake > self.validators[k].target {
                assert(decreases_pending(self@, index as int)) by {
                    assert(self@.validators[k as int].stake > self@.validators[k as int].target);
                    assert(!self@.progress[k as int]);
                }
                return true;
            }
            k = k + 1;
        }
        false
    }

    fn pending_increases(&self) -> (r: u128)
        requires
            self.progress.len() == self.validators.len(),
        ensures
            r == pending_deficit(self@, self.validators.len() as int),
    {
        let mut k: usize = 0;
        let mut sum: u128 = 0;
        while k < self.validators.len()
            invariant
                0 <= k <= self.validators.len(),
                self.progress.len() == self.validators.len(),
                sum == pending_deficit(self@, k as int),
                sum <= k * (u64::MAX as int),
            decreases self.validators.len() - k,
        {
            let rec = self.validators[k];
            assert(sum + u64::MAX <= (k + 1) * (u64::MAX as int)) by (nonlinear_arith)
                requires sum <= k * (u64::MAX as int);
            assert((k + 1) * (u64::MAX as int) <= usize::MAX as int * (u64::MAX as int)) by (nonlinear_arith)
                requires k + 1 <= usize::MAX;
            if !self.progress[k] && rec.target > rec.stake {
                sum = sum + (rec.target - rec.stake) as u128;
            }
            k = k + 1;
        }
        sum
    }

    /// Scores the validator at `validator_list_index` from its metric
    /// history (oldest epoch first). `pool_len` is the length of the pool's
    /// own validator list. Once every validator is scored the cycle moves on
    /// to computing delegations; a validator already scored is left as it is.
    pub fn compute_score(
        &mut self,
        validator_list_index: usize,
        pool_len: usize,
        history: &Vec<Option<EpochMetrics>>,
    ) -> (r: Result<(), StewardError>)
        requires
            wf(old(self)@),
        ensures
            wf(final(self)@),
            (final(self)@, r) == score_step(old(self)@, validator_list_index as int, pool_len as int, history@),
    {
        if let Some(e) = self.check_gate(Phase::ComputeScores, pool_len, validator_list_index) {
            return Err(e);
        }
        if self.progress[validator_list_index] {
            return Ok(());
        }
        let rec = self.validators[validator_list_index];
        let bl = blacklisted(&self.config, rec.history_index);
        let o = compute_score(history, bl, rec.stake, &self.config.scoring);
        self.validators.set(validator_list_index, ValidatorRecord { score: o.score, disqualified: o.disqualified, ..rec });
        self.progress.set(validator_list_index, true);
        self.complete_phase_if_done();
        Ok(())
    }

    /// Computes every validator's target stake from the cached scores,
    /// handing out `total_stake` lamports, once all validators are scored.
    /// Clears the instant-unstake marks and the progress bits, starts the
    /// cycle at `epoch` and moves to `Idle`.
    pub fn compute_delegations(&mut self, pool_len: usize, total_stake: u64, epoch: u64) -> (r: Result<(), StewardError>)
        requires
            wf(old(self)@),
        ensures
            wf(final(self)@),
            match phase_gate(old(self)@, Phase::ComputeDelegations, pool_len as int) {
                Some(e) => r == Err::<(), StewardError>(e) && final(self)@ == old(self)@,
                None => r is Ok && (exists|order: Seq<usize>|
                    is_ranking(scores_view(old(self)@.validators, old(self)@.config), order)
                        && final(self)@ == delegated(old(self)@, order, total_stake, epoch)
                        && (funds_whole_band(
                            scores_view(old(self)@.validators, old(self)@.config),
                            order,
                            total_stake as int,
                            old(self)@.config.min_stake_per_validator as int,
                            old(self)@.config.max_stake_per_validator as int,
                        ) ==> forall|p: int|
                            0 <= p < old(self)@.validators.len() ==> (final(self)@.validators[#[trigger] order[p] as int].target > 0
                                <==> p < cutoff(old(self)@.validators.len() as int)
                                && !scores_view(old(self)@.validators, old(self)@.config)[order[p] as int].disqualified)))
                    && forall|i: int|
                        0 <= i < old(self)@.validators.len() && (old(self)@.validators[i].disqualified
                            || is_blacklisted(old(self)@.config, #[trigger] old(self)@.validators[i].history_index))
                            ==> final(self)@.validators[i].target == 0,
            },
    {
        if let Some(e) = self.check_phase(Phase::ComputeDelegations, pool_len) {
            return Err(e);
        }
        let ghost v0 = self@;
        let n = self.validators.len();
        let mut scores: Vec<ScoreOutcome> = Vec::new();
        let mut k: usize = 0;
        while k < n
            invariant
                0 <= k <= n,
                n == self.validators.len(),
                self@ == v0,
                scores@ == scores_view(v0.validators, v0.config).subrange(0, k as int),
            decreases n - k,
        {
            let rec = self.validators[k];
            let bl = blacklisted(&self.config, rec.history_index);
            scores.push(ScoreOutcome { score: rec.score, disqualified: rec.disqualified || bl });
            k = k + 1;
            assert(scores@ =~= scores_view(v0.validators, v0.config).subrange(0, k as int));
        }
        assert(scores@ =~= scores_view(v0.validators, v0.config));
        let alloc = allocate(&scores, total_stake, self.config.min_stake_per_validator, self.config.max_stake_per_validator);
        let ghost t = alloc.targets@;
        k = 0;
        while k < n
            invariant
                0 <= k <= n,
                n == self.validators.len(),
                t.len() == n,
                v0.validators.len() == n,
                alloc.targets@ == t,
                self@ == (StewardView { validators: self@.validators, ..v0 }),
                forall|j: int| 0 <= j < k ==> self.validators@[j] == with_targets(v0.validators, t)[j],
                forall|j: int| k <= j < n ==> self.validators@[j] == v0.validators[j],
            decreases n - k,
        {
            let rec = self.validators[k];
            self.validators.set(k, ValidatorRecord { target: alloc.targets[k], instant_unstake: false, ..rec });
            assert(self.validators@[k as int] == with_targets(v0.validators, t)[k as int]);
            k = k + 1;
        }
        assert(self.validators@ =~= with_targets(v0.validators, t));
        self.clear_progress();
        if epoch > self.current_epoch {
            self.current_epoch = epoch;
            self.unstaked_this_epoch = 0;
        }
        self.cycle_start_epoch = self.current_epoch;
        self.phase = Phase::Idle;
        assert(self@ == delegated(v0, alloc.ranking@, total_stake, epoch));
        assert forall|i: int|
            0 <= i < v0.validators.len() && (v0.validators[i].disqualified
                || is_blacklisted(v0.config, #[trigger] v0.validators[i].history_index))
                implies self@.validators[i].target == 0 by {
            assert(scores@[i].disqualified);
        }
        Ok(())
    }

    /// Opens the next instant-unstake and rebalance pass once `epoch` is
    /// later than the epoch of the current one.
    pub fn idle(&mut self, pool_len: usize, epoch: u64) -> (r: Result<(), StewardError>)
        requires
            wf(old(self)@),
        ensures
            wf(final(self)@),
            (final(self)@, r) == idle_step(old(self)@, pool_len as int, epoch),
    {
        if let Some(e) = self.check_phase(Phase::Idle, pool_len) {
            return Err(e);
        }
        if epoch <= self.current_epoch {
            return Err(StewardError::NotYetEligible);
        }
        self.phase = Phase::ComputeInstantUnstake;
        self.current_epoch = epoch;
        self.unstaked_this_epoch = 0;
        Ok(())
    }

    /// Checks the validator at `validator_list_index` against its live
    /// metrics and, if it must be unstaked, marks it and sets its target to
    /// zero. Once every validator is checked the cycle moves on to
    /// rebalancing.
    pub fn compute_instant_unstake(
        &mut self,
        validator_list_index: usize,
        pool_len: usize,
        metrics: &LiveMetrics,
    ) -> (r: Result<(), StewardError>)
        requires
            wf(old(self)@),
        ensures
            wf(final(self)@),
            (final(self)@, r) == instant_unstake_step(old(self)@, validator_list_index as int, pool_len as int, *metrics),
    {
        if let Some(e) = self.check_gate(Phase::ComputeInstantUnstake, pool_len, validator_list_index) {
            return Err(e);
        }
        if self.progress[validator_list_index] {
            return Ok(());
        }
        let rec = self.validators[validator_list_index];
        let bl = blacklisted(&self.config, rec.history_index);
        if evaluate_instant_unstake(metrics, bl, self.config.instant_unstake_commission_max) {
            self.validators.set(validator_list_index, ValidatorRecord { target: 0, instant_unstake: true, ..rec });
        } else {
            assert(self.validators@ =~= self.validators@.update(validator_list_index as int, rec));
        }
        self.progress.set(validator_list_index, true);
        self.complete_phase_if_done();
        Ok(())
    }

    /// Decides the stake movement of the validator at `validator_list_index`
    /// towards its target, with `reserve` lamports in the pool reserve, and
    /// records it. Once every validator is rebalanced the cycle goes back to
    /// `Idle`, or to scoring when the cycle's epochs have run out.
    pub fn rebalance(
        &mut self,
        validator_list_index: usize,
        pool_len: usize,
        reserve: u64,
    ) -> (r: Result<RebalanceAction, StewardError>)
        requires
            wf(old(self)@),
        ensures
            wf(final(self)@),
            (final(self)@, r) == rebalance_step(old(self)@, validator_list_index as int, pool_len as int, reserve),
    {
        if let Some(e) = self.check_gate(Phase::Rebalance, pool_len, validator_list_index) {
            return Err(e);
        }
        if self.progress[validator_list_index] {
            return Ok(RebalanceAction::NoChange);
        }
        let rec = self.validators[validator_list_index];
        let pending = self.pending_decrease(validator_list_index);
        let cap_left = self.config.unstake_cap - self.unstaked_this_epoch;
        let increases = self.pending_increases();
        let a = rebalance_decision(rec.stake, rec.target, reserve, cap_left, pending, increases);
        let stake = match a {
            RebalanceAction::Increase(x) => rec.stake + x,
            RebalanceAction::Decrease(x) => {
                self.unstaked_this_epoch = self.unstaked_this_epoch + x;
                rec.stake - x
            },
            RebalanceAction::NoChange => rec.stake,
        };
        self.validators.set(validator_list_index, ValidatorRecord { stake, ..rec });
        self.progress.set(validator_list_index, true);
        self.complete_phase_if_done();
        Ok(a)
    }

    /// The movement that `rebalance` would decide and record for the
    /// validator at `validator_list_index`, without recording anything: the
    /// pool can carry it out first, and `rebalance` with the same arguments
    /// records it once the pool has succeeded.
    pub fn plan_rebalance(
        &self,
        validator_list_index: usize,
        pool_len: usize,
        reserve: u64,
    ) -> (r: Result<RebalanceAction, StewardError>)
        requires
            wf(self@),
        ensures
            r == rebalance_step(self@, validator_list_index as int, pool_len as int, reserve).1,
    {
        if let Some(e) = self.check_gate(Phase::Rebalance, pool_len, validator_list_index) {
            return Err(e);
        }
        if self.progress[validator_list_index] {
            return Ok(RebalanceAction::NoChange);
        }
        let rec = self.validators[validator_list_index];
        let pending = self.pending_decrease(validator_list_index);
        let cap_left = self.config.unstake_cap - self.unstaked_this_epoch;
        let increases = self.pending_increases();
        Ok(rebalance_decision(rec.stake, rec.target, reserve, cap_left, pending, increases))
    }

    /// Drops the record at `validator_index_to_remove` when the pool's list
    /// (`pool_len` validators) has become shorter than the state's.
    pub fn index_mismatch_interrupt(
        &mut self,
        validator_index_to_remove: usize,
        pool_len: usize,
    ) -> (r: Result<(), StewardError>)
        requires
            wf(old(self)@),
        ensures
            wf(final(self)@),
            (final(self)@, r) == removal_step(old(self)@, validator_index_to_remove as int, pool_len as int),
    {
        if self.config.paused {
            return Err(StewardError::Paused);
        }
        if self.validators.len() == pool_len {
            return Ok(());
        }
        if self.validators.len() < pool_len {
            return Err(StewardError::IndexMismatch);
        }
        if validator_index_to_remove >= self.validators.len() {
            return Err(StewardError::IndexOutOfRange);
        }
        let ghost v0 = self@;
        self.validators.remove(validator_index_to_remove);
        self.progress.remove(validator_index_to_remove);
        proof {
            let i = validator_index_to_remove as int;
            assert forall|j: int|
                0 <= j < self@.validators.len() && (#[trigger] self@.validators[j]).instant_unstake
                    implies self@.validators[j].target == 0 by {
                if j < i {
                    assert(self@.validators[j] == v0.validators[j]);
                } else {
                    assert(self@.validators[j] == v0.validators[j + 1]);
                }
            }
            if v0.phase == Phase::ComputeDelegations {
                assert forall|j: int| 0 <= j < self@.progress.len() implies #[trigger] self@.progress[j] by {
                    if j < i {
                        assert(self@.progress[j] == v0.progress[j]);
                    } else {
                        assert(self@.progress[j] == v0.progress[j + 1]);
                    }
                }
            }
            if v0.phase == Phase::Idle {
                assert forall|j: int| 0 <= j < self@.progress.len() implies !#[trigger] self@.progress[j] by {
                    if j < i {
                        assert(self@.progress[j] == v0.progress[j]);
                    } else {
                        assert(self@.progress[j] == v0.progress[j + 1]);
                    }
                }
            }
        }
        self.complete_phase_if_done();
        Ok(())
    }

    /// Appends the record of a validator that the pool (now `pool_len`
    /// validators long) has just taken in.
    pub fn auto_add_validator_to_pool(
        &mut self,
        vote_account: [u8; 32],
        history_index: u32,
        stake: u64,
        pool_len: usize,
    ) -> (r: Result<(), StewardError>)
        requires
            wf(old(self)@),
        ensures
            wf(final(self)@),
            (final(self)@, r) == add_step(old(self)@, new_record(vote_account, history_index, stake), pool_len as int),
    {
        if self.config.paused {
            return Err(StewardError::Paused);
        }
        if self.validators.len() >= pool_len || self.validators.len() + 1 != pool_len {
            return Err(StewardError::IndexMismatch);
        }
        let done = self.phase == Phase::ComputeDelegations;
        self.validators.push(ValidatorRecord {
            vote_account,
            history_index,
            score: 0,
            disqualified: true,
            target: 0,
            stake,
            instant_unstake: false,
        });
        self.progress.push(done);
        Ok(())
    }

    /// The indices of the validators not yet done with the current phase, in
    /// increasing order: the calls a crank still has to make.
    pub fn pending_indices(&self) -> (r: Vec<usize>)
        ensures
            forall|p: int| 0 <= p < r@.len() ==> #[trigger] r@[p] < self.progress@.len() && !self.progress@[r@[p] as int],
            forall|p: int, q: int| 0 <= p < q < r@.len() ==> #[trigger] r@[p] < #[trigger] r@[q],
            forall|i: int| 0 <= i < self.progress@.len() && !#[trigger] self.progress@[i] ==> lists(r@, i),
    {
        let mut r: Vec<usize> = Vec::new();
        let mut k: usize = 0;
        while k < self.progress.len()
            invariant
                0 <= k <= self.progress.len(),
                forall|p: int| 0 <= p < r@.len() ==> #[trigger] r@[p] < k && !self.progress@[r@[p] as int],
                forall|p: int, q: int| 0 <= p < q < r@.len() ==> #[trigger] r@[p] < #[trigger] r@[q],
                forall|i: int| 0 <= i < k && !#[trigger] self.progress@[i] ==> lists(r@, i),
            decreases self.progress.len() - k,
        {
            if !self.progress[k] {
                let ghost r0 = r@;
                r.push(k);
                proof {
                    assert forall|i: int| 0 <= i < k + 1 && !#[trigger] self.progress@[i] implies lists(r@, i) by {
                        if i == k {
                            assert(r@[r@.len() - 1] == k);
                        } else {
                            assert(lists(r0, i));
                            let p0 = choose|p: int| 0 <= p < r0.len() && r0[p] == i;
                            assert(r@[p0] == i);
                        }
                    }
                }
            }
            k = k + 1;
        }
        r
    }

    /// A state for `config` with no validators, about to score, at `epoch`.
    pub fn initialize_steward(config: Config, epoch: u64) -> (s: StewardState)
        ensures
            wf(s@),
            s@ == (StewardView {
                config: config@,
                phase: Phase::ComputeScores,
                cycle_start_epoch: epoch,
                current_epoch: epoch,
                progress: Seq::empty(),
                validators: Seq::empty(),
                unstaked_this_epoch: 0,
            }),
    {
        let s = StewardState {
            config,
            phase: Phase::ComputeScores,
            cycle_start_epoch: epoch,
            current_epoch: epoch,
            progress: Vec::new(),
            validators: Vec::new(),
            unstaked_this_epoch: 0,
        };
        assert(s@.progress =~= Seq::<bool>::empty());
        assert(s@.validators =~= Seq::<ValidatorRecord>::empty());
        s
    }

    /// Rejects every cycle operation until resumed.
    pub fn pause_steward(&mut self)
        requires
            wf(old(self)@),
        ensures
            wf(final(self)@),
            final(self)@ == (StewardView { config: ConfigView { paused: true, ..old(self)@.config }, ..old(self)@ }),
    {
        self.config.paused = true;
    }

    /// Lets cycle operations run again.
    pub fn resume_steward(&mut self)
        requires
            wf(old(self)@),
        ensures
            wf(final(self)@),
            final(self)@ == (StewardView { config: ConfigView { paused: false, ..old(self)@.config }, ..old(self)@ }),
    {
        self.config.paused = false;
    }

    /// Puts the metrics-feed index `history_index` on the blacklist, once.
    pub fn add_validator_to_blacklist(&mut self, history_index: u32)
        requires
            wf(old(self)@),
        ensures
            wf(final(self)@),
            final(self)@ == (StewardView {
                config: ConfigView {
                    blacklist: if old(self)@.config.blacklist.contains(history_index) {
                        old(self)@.config.blacklist
                    } else {
                        old(self)@.config.blacklist.push(history_index)
                    },
                    ..old(self)@.config
                },
                ..old(self)@
            }),
    {
        if !blacklisted(&self.config, history_index) {
            self.config.blacklist.push(history_index);
        }
    }

    /// Takes every occurrence of `history_index` off the blacklist, keeping
    /// the others in order.
    pub fn remove_validator_from_blacklist(&mut self, history_index: u32)
        requires
            wf(old(self)@),
        ensures
            wf(final(self)@),
            final(self)@ == (StewardView {
                config: ConfigView {
                    blacklist: old(self)@.config.blacklist.filter(|x: u32| x != history_index),
                    ..old(self)@.config
                },
                ..old(self)@
            }),
    {
        let ghost old_list = self.config.blacklist@;
        let mut kept: Vec<u32> = Vec::new();
        let mut k: usize = 0;
        while k < self.config.blacklist.len()
            invariant
                0 <= k <= self.config.blacklist.len(),
                self.config.blacklist@ == old_list,
                kept@ == old_list.subrange(0, k as int).filter(|x: u32| x != history_index),
            decreases self.config.blacklist.len() - k,
        {
            let x = self.config.blacklist[k];
            proof {
                reveal(Seq::filter);
                assert(old_list.subrange(0, k + 1).drop_last() =~= old_list.subrange(0, k as int));
            }
            if x != history_index {
                kept.push(x);
            }
            k = k + 1;
        }
        assert(old_list.subrange(0, k as int) =~= old_list);
        self.config.blacklist = kept;
    }

    /// Starts a fresh scoring cycle: cached scores, targets and marks are
    /// wiped, every progress bit is cleared and the epoch's unstake tally is
    /// zero.
    pub fn reset_steward_state(&mut self)
        requires
            wf(old(self)@),
        ensures
            wf(final(self)@),
            final(self)@ == (StewardView {
                phase: Phase::ComputeScores,
                cycle_start_epoch: old(self)@.current_epoch,
                progress: cleared(old(self)@.progress.len()),
                validators: reset_records(old(self)@.validators),
                unstaked_this_epoch: 0,
                ..old(self)@
            }),
    {
        self.clear_progress();
        self.reset_validators();
        self.phase = Phase::ComputeScores;
        self.cycle_start_epoch = self.current_epoch;
        self.unstaked_this_epoch = 0;
    }
}

/// A per-validator operation that succeeds on a validator not yet done sets
/// its bit, and the phase moves on exactly when that leaves every bit of the
/// phase set.
pub proof fn lemma_phase_advances_iff_all_done(
    v: StewardView,
    index: int,
    pool_len: int,
    h: Seq<Option<EpochMetrics>>,
    m: LiveMetrics,
    reserve: u64,
)
    requires
        wf(v),
        0 <= index < v.progress.len(),
        !v.progress[index],
    ensures
        gate(v, Phase::ComputeScores, pool_len, index) is None ==> (score_step(v, index, pool_len, h).0.phase
            != Phase::ComputeScores <==> all_set(v.progress.update(index, true))),
        gate(v, Phase::ComputeInstantUnstake, pool_len, index) is None ==> (instant_unstake_step(v, index, pool_len, m).0.phase
            != Phase::ComputeInstantUnstake <==> all_set(v.progress.update(index, true))),
        gate(v, Phase::Rebalance, pool_len, index) is None ==> (rebalance_step(v, index, pool_len, reserve).0.phase
            != Phase::Rebalance <==> all_set(v.progress.update(index, true))),
{
}

/// Calling a per-validator operation a second time for the same index in
/// the same phase succeeds again and changes nothing, whatever the second
/// caller passes along.
pub proof fn lemma_repeat_call_is_noop(
    v: StewardView,
    index: int,
    pool_len: int,
    h1: Seq<Option<EpochMetrics>>,
    h2: Seq<Option<EpochMetrics>>,
    m1: LiveMetrics,
    m2: LiveMetrics,
    reserve1: u64,
    reserve2: u64,
)
    requires
        wf(v),
        0 <= index,
    ensures
        ({
            let (v1, r1) = score_step(v, index, pool_len, h1);
            r1 is Ok && v1.phase == v.phase ==> score_step(v1, index, pool_len, h2) == (v1, Ok::<(), StewardError>(()))
        }),
        ({
            let (v1, r1) = instant_unstake_step(v, index, pool_len, m1);
            r1 is Ok && v1.phase == v.phase ==> instant_unstake_step(v1, index, pool_len, m2) == (v1, Ok::<(), StewardError>(()))
        }),
        ({
            let (v1, r1) = rebalance_step(v, index, pool_len, reserve1);
            r1 is Ok && v1.phase == v.phase ==> rebalance_step(v1, index, pool_len, reserve2) == (
                v1,
                Ok::<RebalanceAction, StewardError>(RebalanceAction::NoChange),
            )
        }),
{
    if gate(v, Phase::ComputeScores, pool_len, index) is None && !v.progress[index] {
        let v1 = score_step(v, index, pool_len, h1).0;
        if v1.phase == v.phase {
            let rec = v.validators[index];
            let o = score_of(h1, is_blacklisted(v.config, rec.history_index), rec.stake, v.config.scoring);
            let w = StewardView {
                validators: v.validators.update(index, ValidatorRecord { score: o.score, disqualified: o.disqualified, ..rec }),
                progress: v.progress.update(index, true),
                ..v
            };
            assert(v1 == advance_if_complete(w));
            assert(!all_set(w.progress));
            assert(v1.progress[index]);
        }
    }
    if gate(v, Phase::ComputeInstantUnstake, pool_len, index) is None && !v.progress[index] {
        let v1 = instant_unstake_step(v, index, pool_len, m1).0;
        if v1.phase == v.phase {
            assert(!all_set(v.progress.update(index, true)));
            assert(v1.progress[index]);
        }
    }
    if gate(v, Phase::Rebalance, pool_len, index) is None && !v.progress[index] {
        let v1 = rebalance_step(v, index, pool_len, reserve1).0;
        if v1.phase == v.phase {
            assert(!all_set(v.progress.update(index, true)));
            assert(v1.progress[index]);
        }
    }
}

/// `idle` never opens a pass in the epoch in which the cycle began.
pub proof fn lemma_idle_waits_for_next_epoch(v: StewardView, pool_len: int)
    requires
        wf(v),
    ensures
        idle_step(v, pool_len, v.cycle_start_epoch).1 is Err,
        idle_step(v, pool_len, v.cycle_start_epoch).0 == v,
        v.phase == Phase::Idle && !v.config.paused && v.validators.len() == pool_len
            ==> idle_step(v, pool_len, v.cycle_start_epoch).1 == Err::<(), StewardError>(StewardError::NotYetEligible),
{
}

/// The lamports that decreases move in an epoch, summed over every
/// validator rebalanced in it, stay within the configured cap: each
/// rebalance adds exactly its decrease to the epoch's tally, and the tally
/// never passes the cap.
pub proof fn lemma_unstake_within_cap(v: StewardView, index: int, pool_len: int, reserve: u64)
    requires
        wf(v),
    ensures
        ({
            let (v1, r) = rebalance_step(v, index, pool_len, reserve);
            &&& v1.unstaked_this_epoch <= v1.config.unstake_cap
            &&& v1.current_epoch == v.current_epoch
            &&& (r matches Ok(a) ==> v1.unstaked_this_epoch == v.unstaked_this_epoch + unstaked_by(a))
            &&& (r is Err ==> v1 == v)
        }),
{
}

/// A validator that the instant-unstake check flags is marked and its
/// target is zero at once, whatever the allocator gave it; the state's
/// invariant keeps every marked validator at a zero target until the marks
/// are cleared by the next delegation pass.
pub proof fn lemma_flagged_validator_loses_target(v: StewardView, index: int, pool_len: int, m: LiveMetrics)
    requires
        wf(v),
        0 <= index,
        gate(v, Phase::ComputeInstantUnstake, pool_len, index) is None,
        !v.progress[index],
        must_unstake(m, is_blacklisted(v.config, v.validators[index].history_index), v.config.instant_unstake_commission_max),
    ensures
        instant_unstake_step(v, index, pool_len, m).1 is Ok,
        instant_unstake_step(v, index, pool_len, m).0.validators[index].target == 0,
        instant_unstake_step(v, index, pool_len, m).0.validators[index].instant_unstake,
{
}

/// While the pool's validator list and the state's differ in length, every
/// cycle operation of the current phase fails with an index mismatch and
/// changes nothing; once the pool has lost one validator, removing its
/// record reconciles the lengths.
pub proof fn lemma_mismatch_blocks_until_reconciled(
    v: StewardView,
    index: int,
    pool_len: int,
    h: Seq<Option<EpochMetrics>>,
    m: LiveMetrics,
    reserve: u64,
    epoch: u64,
    removed: int,
)
    requires
        wf(v),
        !v.config.paused,
        v.validators.len() != pool_len,
    ensures
        v.phase == Phase::ComputeScores ==> score_step(v, index, pool_len, h) == (v, Err::<(), StewardError>(StewardError::IndexMismatch)),
        v.phase == Phase::ComputeDelegations ==> phase_gate(v, Phase::ComputeDelegations, pool_len) == Some(StewardError::IndexMismatch),
        v.phase == Phase::Idle ==> idle_step(v, pool_len, epoch) == (v, Err::<(), StewardError>(StewardError::IndexMismatch)),
        v.phase == Phase::ComputeInstantUnstake ==> instant_unstake_step(v, index, pool_len, m) == (v, Err::<(), StewardError>(StewardError::IndexMismatch)),
        v.phase == Phase::Rebalance ==> rebalance_step(v, index, pool_len, reserve) == (v, Err::<RebalanceAction, StewardError>(StewardError::IndexMismatch)),
        v.validators.len() == pool_len + 1 && 0 <= removed < v.validators.len() ==> ({
            let (v1, r) = removal_step(v, removed, pool_len);
            &&& r is Ok
            &&& v1.validators.len() == pool_len
            &&& v1.progress.len() == pool_len
        }),
{
}

} // verus!
