//! A single-shot delegation policy: each epoch, the validators in the top
//! ninety percent by staking rewards keep stake and the others lose it.
use vstd::prelude::*;
use crate::allocator::{cutoff, cutoff_index, is_ranking, lists, rank_validators};
use crate::score::{epoch_net_reward, net_reward, EpochMetrics, ScoreOutcome};

verus! {

/// Why an allocation update was refused.
#[derive(Clone, Copy, PartialEq, Eq, Structural, Debug)]
pub enum Five90Error {
    /// The epoch is older than the last one processed.
    InvalidEpoch,
}

/// The policy's state.
#[derive(Clone, Copy, Debug)]
pub struct Five90State {
    /// Key allowed to update stake allocations.
    pub admin: [u8; 32],
    /// Last processed epoch.
    pub epoch: u64,
}

/// One validator's statistics for the epoch being processed.
#[derive(Clone, Copy, Debug)]
pub struct ValidatorStats {
    pub vote_account: [u8; 32],
    pub epoch_credits: u64,
    /// Commission in percent (values above 100 count as 100).
    pub commission: u8,
}

/// Which validators (by position in the statistics) get stake and which lose it.
pub struct StakeMoves {
    /// The top band, best first.
    pub delegate: Vec<usize>,
    /// Everyone else, in increasing order.
    pub undelegate: Vec<usize>,
}

/// Credits minus the commission's share: the staking rewards of an epoch.
pub open spec fn staking_rewards(s: ValidatorStats) -> int {
    net_reward(EpochMetrics { credits: s.epoch_credits, commission: s.commission, delinquent: false })
}

/// The rewards of each validator, as scores to rank.
pub open spec fn rewards_view(stats: Seq<ValidatorStats>) -> Seq<ScoreOutcome> {
    Seq::new(stats.len(), |i: int| ScoreOutcome { score: staking_rewards(stats[i]) as u64, disqualified: false })
}

/// `delegate` is the top band of a ranking of `stats` by rewards, best
/// first, and `undelegate` lists every other validator once, in increasing
/// order.
pub open spec fn moves_for(stats: Seq<ValidatorStats>, delegate: Seq<usize>, undelegate: Seq<usize>) -> bool {
    &&& exists|order: Seq<usize>|
        is_ranking(rewards_view(stats), order) && delegate == order.subrange(0, cutoff(stats.len() as int))
    &&& forall|p: int| 0 <= p < undelegate.len() ==> #[trigger] undelegate[p] < stats.len()
    &&& forall|p: int, q: int| 0 <= p < q < undelegate.len() ==> #[trigger] undelegate[p] < #[trigger] undelegate[q]
    &&& forall|i: int| 0 <= i < stats.len() ==> (#[trigger] lists(undelegate, i) <==> !lists(delegate, i))
}

/// A fresh state administered by `admin`, at epoch zero.
pub fn initialize(admin: [u8; 32]) -> (s: Five90State)
    ensures
        s.admin == admin,
        s.epoch == 0,
{
    Five90State { admin, epoch: 0 }
}

/// Ranks the validators by staking rewards (ties by position) and splits
/// them at the cutoff `floor(n * 9 / 10)`. An epoch older than the last one
/// processed is refused; otherwise it becomes the last processed epoch.
pub fn update_stake_allocations(
    state: &mut Five90State,
    epoch: u64,
    stats: &Vec<ValidatorStats>,
) -> (r: Result<StakeMoves, Five90Error>)
    ensures
        epoch < old(state).epoch ==> r is Err && *final(state) == *old(state),
        r matches Err(e) ==> e == Five90Error::InvalidEpoch && epoch < old(state).epoch,
        r matches Ok(m) ==> moves_for(stats@, m.delegate@, m.undelegate@) && final(state).epoch == epoch
            && final(state).admin == old(state).admin,
{
    if epoch < state.epoch {
        return Err(Five90Error::InvalidEpoch);
    }
    let n = stats.len();
    let mut rewards: Vec<ScoreOutcome> = Vec::new();
    let mut k: usize = 0;
    while k < n
        invariant
            0 <= k <= n,
            n == stats.len(),
            rewards@ == rewards_view(stats@).subrange(0, k as int),
        decreases n - k,
    {
        let m = EpochMetrics { credits: stats[k].epoch_credits, commission: stats[k].commission, delinquent: false };
        let v = epoch_net_reward(&m);
        rewards.push(ScoreOutcome { score: v, disqualified: false });
        k = k + 1;
        assert(rewards@ =~= rewards_view(stats@).subrange(0, k as int));
    }
    assert(rewards@ =~= rewards_view(stats@));
    let order = rank_validators(&rewards);
    let c = cutoff_index(n);
    let mut delegate: Vec<usize> = Vec::new();
    let mut chosen: Vec<bool> = Vec::new();
    k = 0;
    while k < n
        invariant
            0 <= k <= n,
            chosen@ == Seq::new(k as nat, |j: int| false),
        decreases n - k,
    {
        chosen.push(false);
        k = k + 1;
        assert(chosen@ =~= Seq::new(k as nat, |j: int| false));
    }
    let mut p: usize = 0;
    while p < c
        invariant
            0 <= p <= c <= n,
            c == cutoff(n as int),
            n == stats.len(),
            is_ranking(rewards@, order@),
            rewards@ == rewards_view(stats@),
            chosen@.len() == n,
            delegate@ == order@.subrange(0, p as int),
            forall|i: int| 0 <= i < n ==> (#[trigger] chosen@[i] <==> lists(delegate@, i)),
        decreases c - p,
    {
        let i = order[p];
        let ghost d0 = delegate@;
        delegate.push(i);
        chosen.set(i, true);
        p = p + 1;
        assert(delegate@ =~= order@.subrange(0, p as int));
        assert forall|j: int| 0 <= j < n implies (#[trigger] chosen@[j] <==> lists(delegate@, j)) by {
            if lists(d0, j) {
                let q = choose|q: int| 0 <= q < d0.len() && d0[q] == j;
                assert(delegate@[q] == j);
            }
            if j == i {
                assert(delegate@[p - 1] == j);
            }
            if lists(delegate@, j) && j != i {
                let q = choose|q: int| 0 <= q < delegate@.len() && delegate@[q] == j;
                assert(d0[q] == j);
            }
        }
    }
    let mut undelegate: Vec<usize> = Vec::new();
    k = 0;
    while k < n
        invariant
            0 <= k <= n,
            n == stats.len(),
            chosen@.len() == n,
            forall|i: int| 0 <= i < n ==> (#[trigger] chosen@[i] <==> lists(delegate@, i)),
            forall|q: int| 0 <= q < undelegate@.len() ==> #[trigger] undelegate@[q] < k && !chosen@[undelegate@[q] as int],
            forall|q: int, t: int| 0 <= q < t < undelegate@.len() ==> #[trigger] undelegate@[q] < #[trigger] undelegate@[t],
            forall|i: int| 0 <= i < k && !#[trigger] chosen@[i] ==> lists(undelegate@, i),
        decreases n - k,
    {
        if !chosen[k] {
            let ghost u0 = undelegate@;
            undelegate.push(k);
            proof {
                assert forall|i: int| 0 <= i < k + 1 && !#[trigger] chosen@[i] implies lists(undelegate@, i) by {
                    if i == k {
                        assert(undelegate@[undelegate@.len() - 1] == k);
                    } else {
                        assert(lists(u0, i));
                        let q = choose|q: int| 0 <= q < u0.len() && u0[q] == i;
                        assert(undelegate@[q] == i);
                    }
                }
            }
        }
        k = k + 1;
    }
    proof {
        assert forall|i: int| 0 <= i < n implies (#[trigger] lists(undelegate@, i) <==> !lists(delegate@, i)) by {
            if lists(undelegate@, i) {
                let q = choose|q: int| 0 <= q < undelegate@.len() && undelegate@[q] == i;
                assert(!chosen@[undelegate@[q] as int]);
            }
            if !chosen@[i] {
                assert(lists(undelegate@, i));
            }
        }
    }
    state.epoch = epoch;
    Ok(StakeMoves { delegate, undelegate })
}

/// `pos` lists, in increasing order, exactly the positions of `fetched` that
/// hold statistics.
pub open spec fn present_positions(fetched: Seq<Option<ValidatorStats>>, pos: Seq<usize>) -> bool {
    &&& forall|k: int| 0 <= k < pos.len() ==> #[trigger] pos[k] < fetched.len() && fetched[pos[k] as int] is Some
    &&& forall|k: int, l: int| 0 <= k < l < pos.len() ==> #[trigger] pos[k] < #[trigger] pos[l]
    &&& forall|i: int| 0 <= i < fetched.len() && (#[trigger] fetched[i]) is Some ==> lists(pos, i)
}

/// The statistics found at the positions `pos`.
pub open spec fn present_stats(fetched: Seq<Option<ValidatorStats>>, pos: Seq<usize>) -> Seq<ValidatorStats> {
    Seq::new(pos.len(), |k: int| fetched[pos[k] as int].unwrap())
}

/// Stake moves for every account, given what could be fetched for each
/// (`None` where no statistics came back). The accounts with statistics are
/// split as `update_stake_allocations` splits them, and the positions it
/// returns are turned back into account positions; an account without
/// statistics loses its stake.
pub fn plan_stake_moves(
    state: &mut Five90State,
    epoch: u64,
    fetched: &Vec<Option<ValidatorStats>>,
) -> (r: Result<StakeMoves, Five90Error>)
    ensures
        epoch < old(state).epoch ==> r is Err && *final(state) == *old(state),
        r matches Err(e) ==> e == Five90Error::InvalidEpoch && epoch < old(state).epoch,
        r matches Ok(m) ==> final(state).epoch == epoch && final(state).admin == old(state).admin
            && (exists|pos: Seq<usize>, d: Seq<usize>, u: Seq<usize>|
                present_positions(fetched@, pos) && moves_for(present_stats(fetched@, pos), d, u)
                    && m.delegate@ == Seq::new(d.len(), |k: int| pos[d[k] as int]))
            && (forall|p: int| 0 <= p < m.undelegate@.len() ==> #[trigger] m.undelegate@[p] < fetched@.len())
            && (forall|p: int, q: int| 0 <= p < q < m.undelegate@.len() ==> #[trigger] m.undelegate@[p] < #[trigger] m.undelegate@[q])
            && (forall|i: int| 0 <= i < fetched@.len() ==> (#[trigger] lists(m.undelegate@, i) <==> !lists(m.delegate@, i))),
{
    let n = fetched.len();
    let mut pos: Vec<usize> = Vec::new();
    let mut stats: Vec<ValidatorStats> = Vec::new();
    let mut k: usize = 0;
    while k < n
        invariant
            0 <= k <= n,
            n == fetched.len(),
            stats@ == present_stats(fetched@, pos@),
            forall|j: int| 0 <= j < pos@.len() ==> #[trigger] pos@[j] < k && fetched@[pos@[j] as int] is Some,
            forall|j: int, l: int| 0 <= j < l < pos@.len() ==> #[trigger] pos@[j] < #[trigger] pos@[l],
            forall|i: int| 0 <= i < k && (#[trigger] fetched@[i]) is Some ==> lists(pos@, i),
        decreases n - k,
    {
        if let Some(st) = fetched[k] {
            let ghost p0 = pos@;
            pos.push(k);
            stats.push(st);
            proof {
                assert(stats@ =~= present_stats(fetched@, pos@));
                assert forall|i: int| 0 <= i < k + 1 && (#[trigger] fetched@[i]) is Some implies lists(pos@, i) by {
                    if i == k {
                        assert(pos@[pos@.len() - 1] == k);
                    } else {
                        assert(lists(p0, i));
                        let q = choose|q: int| 0 <= q < p0.len() && p0[q] == i;
                        assert(pos@[q] == i);
                    }
                }
            }
        }
        k = k + 1;
    }
    let moves = match update_stake_allocations(state, epoch, &stats) {
        Ok(m) => m,
        Err(e) => return Err(e),
    };
    let ghost d = moves.delegate@;
    proof {
        let order = choose|order: Seq<usize>|
            is_ranking(rewards_view(stats@), order) && d == order.subrange(0, cutoff(stats@.len() as int));
        assert forall|j: int| 0 <= j < d.len() implies #[trigger] d[j] < pos@.len() by {
            assert(d[j] == order[j]);
        }
    }
    let mut delegate: Vec<usize> = Vec::new();
    let mut chosen: Vec<bool> = Vec::new();
    k = 0;
    while k < n
        invariant
            0 <= k <= n,
            chosen@ == Seq::new(k as nat, |j: int| false),
        decreases n - k,
    {
        chosen.push(false);
        k = k + 1;
        assert(chosen@ =~= Seq::new(k as nat, |j: int| false));
    }
    let mut p: usize = 0;
    while p < moves.delegate.len()
        invariant
            0 <= p <= d.len(),
            d == moves.delegate@,
            n == fetched.len(),
            forall|j: int| 0 <= j < d.len() ==> #[trigger] d[j] < pos@.len(),
            forall|j: int| 0 <= j < pos@.len() ==> #[trigger] pos@[j] < n,
            chosen@.len() == n,
            delegate@ == Seq::new(p as nat, |j: int| pos@[d[j] as int]),
            forall|i: int| 0 <= i < n ==> (#[trigger] chosen@[i] <==> lists(delegate@, i)),
        decreases d.len() - p,
    {
        let i = pos[moves.delegate[p]];
        let ghost d0 = delegate@;
        delegate.push(i);
        chosen.set(i, true);
        p = p + 1;
        assert(delegate@ =~= Seq::new(p as nat, |j: int| pos@[d[j] as int]));
        assert forall|j: int| 0 <= j < n implies (#[trigger] chosen@[j] <==> lists(delegate@, j)) by {
            if lists(d0, j) {
                let q = choose|q: int| 0 <= q < d0.len() && d0[q] == j;
                assert(delegate@[q] == j);
            }
            if j == i {
                assert(delegate@[p - 1] == j);
            }
            if lists(delegate@, j) && j != i {
                let q = choose|q: int| 0 <= q < delegate@.len() && delegate@[q] == j;
                assert(d0[q] == j);
            }
        }
    }
    let mut undelegate: Vec<usize> = Vec::new();
    k = 0;
    while k < n
        invariant
            0 <= k <= n,
            n == fetched.len(),
            chosen@.len() == n,
            forall|i: int| 0 <= i < n ==> (#[trigger] chosen@[i] <==> lists(delegate@, i)),
            forall|q: int| 0 <= q < undelegate@.len() ==> #[trigger] undelegate@[q] < k && !chosen@[undelegate@[q] as int],
            forall|q: int, t: int| 0 <= q < t < undelegate@.len() ==> #[trigger] undelegate@[q] < #[trigger] undelegate@[t],
            forall|i: int| 0 <= i < k && !#[trigger] chosen@[i] ==> lists(undelegate@, i),
        decreases n - k,
    {
        if !chosen[k] {
            let ghost u0 = undelegate@;
            undelegate.push(k);
            proof {
                assert forall|i: int| 0 <= i < k + 1 && !#[trigger] chosen@[i] implies lists(undelegate@, i) by {
                    if i == k {
                        assert(undelegate@[undelegate@.len() - 1] == k);
                    } else {
                        assert(lists(u0, i));
                        let q = choose|q: int| 0 <= q < u0.len() && u0[q] == i;
                        assert(undelegate@[q] == i);
                    }
                }
            }
        }
        k = k + 1;
    }
    proof {
        assert forall|i: int| 0 <= i < n implies (#[trigger] lists(undelegate@, i) <==> !lists(delegate@, i)) by {
            if lists(undelegate@, i) {
                let q = choose|q: int| 0 <= q < undelegate@.len() && undelegate@[q] == i;
                assert(!chosen@[undelegate@[q] as int]);
            }
            if !chosen@[i] {
                assert(lists(undelegate@, i));
            }
        }
        assert(present_positions(fetched@, pos@));
        assert(moves_for(present_stats(fetched@, pos@), d, moves.undelegate@));
    }
    Ok(StakeMoves { delegate, undelegate })
}

} // verus!
