//! Rebalancer: the bounded stake movement for one validator.
use vstd::prelude::*;

verus! {

/// What the pool should do with one validator's stake.
#[derive(Clone, Copy, PartialEq, Eq, Structural, Debug)]
pub enum RebalanceAction {
    /// Move this many lamports from the reserve to the validator.
    Increase(u64),
    /// Move this many lamports from the validator back to the reserve.
    Decrease(u64),
    /// Leave the stake as it is.
    NoChange,
}

/// Lamports a decrease moves: the surplus, cut to what the epoch cap still allows.
pub open spec fn decrease_amount(current: u64, target: u64, cap_left: u64) -> int {
    let surplus = current - target;
    if surplus < cap_left { surplus } else { cap_left as int }
}

/// Lamports an increase moves: the deficit, cut to the reserve.
pub open spec fn increase_amount(current: u64, target: u64, reserve: u64) -> int {
    let deficit = target - current;
    if deficit < reserve { deficit } else { reserve as int }
}

/// The movement for one validator. Above target it gives back its surplus as
/// far as the per-epoch unstake cap allows. Below target it is funded from the
/// reserve, unless the reserve cannot cover `increases_pending` (the deficits
/// of every validator still to be rebalanced this pass) while decreases are
/// still pending: decreases go first. A movement of zero is none.
pub open spec fn rebalance_of(
    current: u64,
    target: u64,
    reserve: u64,
    cap_left: u64,
    decreases_pending: bool,
    increases_pending: int,
) -> RebalanceAction {
    if current > target {
        let a = decrease_amount(current, target, cap_left);
        if a == 0 { RebalanceAction::NoChange } else { RebalanceAction::Decrease(a as u64) }
    } else if current < target {
        if decreases_pending && reserve < increases_pending {
            RebalanceAction::NoChange
        } else {
            let a = increase_amount(current, target, reserve);
            if a == 0 { RebalanceAction::NoChange } else { RebalanceAction::Increase(a as u64) }
        }
    } else {
        RebalanceAction::NoChange
    }
}

/// Lamports unstaked by an action.
pub open spec fn unstaked_by(a: RebalanceAction) -> int {
    match a {
        RebalanceAction::Decrease(x) => x as int,
        _ => 0,
    }
}

/// Decides the movement for one validator holding `current` lamports against
/// `target`, with `reserve` lamports in the pool reserve and `cap_left`
/// lamports of the epoch's unstake cap unused.
pub fn rebalance_decision(
    current: u64,
    target: u64,
    reserve: u64,
    cap_left: u64,
    decreases_pending: bool,
    increases_pending: u128,
) -> (r: RebalanceAction)
    ensures
        r == rebalance_of(current, target, reserve, cap_left, decreases_pending, increases_pending as int),
        unstaked_by(r) <= cap_left,
        r matches RebalanceAction::Decrease(x) ==> x <= current - target,
        r matches RebalanceAction::Increase(x) ==> x <= reserve && x <= target - current,
{
    if current > target {
        let surplus = current - target;
        let a = if surplus < cap_left { surplus } else { cap_left };
        if a == 0 { RebalanceAction::NoChange } else { RebalanceAction::Decrease(a) }
    } else if current < target {
        let deficit = target - current;
        if decreases_pending && (reserve as u128) < increases_pending {
            RebalanceAction::NoChange
        } else {
            let a = if deficit < reserve { deficit } else { reserve };
            if a == 0 { RebalanceAction::NoChange } else { RebalanceAction::Increase(a) }
        }
    } else {
        RebalanceAction::NoChange
    }
}

} // verus!
