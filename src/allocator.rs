//! Allocator: ranks scored validators and turns the top band's scores into
//! target stake allocations.
use vstd::prelude::*;
use crate::score::ScoreOutcome;

verus! {

/// Validator `a` ranks ahead of validator `b`: a higher score, or an equal
/// score and a lower index.
pub open spec fn ranked_before(s: Seq<ScoreOutcome>, a: int, b: int) -> bool {
    s[a].score > s[b].score || (s[a].score == s[b].score && a < b)
}

/// Index `i` appears somewhere in `order`.
pub open spec fn lists(order: Seq<usize>, i: int) -> bool {
    exists|p: int| 0 <= p < order.len() && order[p] == i
}

/// `order` lists every validator index of `s` once, best ranked first.
pub open spec fn is_ranking(s: Seq<ScoreOutcome>, order: Seq<usize>) -> bool {
    &&& order.len() == s.len()
    &&& forall|p: int| 0 <= p < order.len() ==> #[trigger] order[p] < s.len()
    &&& forall|i: int| 0 <= i < s.len() ==> #[trigger] lists(order, i)
    &&& forall|p: int, q: int|
        0 <= p < q < order.len() ==> ranked_before(s, #[trigger] order[p] as int, #[trigger] order[q] as int)
}

/// Number of ranked positions that may receive stake: the top ninety percent.
pub open spec fn cutoff(n: int) -> int {
    n * 9 / 10
}

/// The smaller of two integers.
pub open spec fn min(a: int, b: int) -> int {
    if a < b { a } else { b }
}

/// Sum of the scores of the qualified validators at the first `p` positions.
pub open spec fn band_score_sum(s: Seq<ScoreOutcome>, order: Seq<usize>, p: int) -> int
    decreases p,
{
    if p <= 0 {
        0
    } else {
        band_score_sum(s, order, p - 1) + if s[order[p - 1] as int].disqualified {
            0
        } else {
            s[order[p - 1] as int].score as int
        }
    }
}

/// Number of qualified validators at the first `p` positions.
pub open spec fn band_count(s: Seq<ScoreOutcome>, order: Seq<usize>, p: int) -> int
    decreases p,
{
    if p <= 0 {
        0
    } else {
        band_count(s, order, p - 1) + if s[order[p - 1] as int].disqualified { 0int } else { 1int }
    }
}

/// The least positive target: the minimum stake, and at least one lamport.
pub open spec fn floor_stake(mn: int) -> int {
    if mn > 1 { mn } else { 1 }
}

/// First pass over the first `p` ranked positions: each qualified validator
/// gets the floor `f`, as long as the cap allows it and stake is left.
/// Returns the targets and the stake left over.
pub open spec fn base_pass(s: Seq<ScoreOutcome>, order: Seq<usize>, f: int, max: int, total: int, p: int) -> (Seq<u64>, int)
    decreases p,
{
    if p <= 0 {
        (Seq::new(s.len(), |i: int| 0u64), total)
    } else {
        let (t, left) = base_pass(s, order, f, max, total, p - 1);
        let i = order[p - 1] as int;
        if s[i].disqualified || f > max || f > left {
            (t, left)
        } else {
            (t.update(i, f as u64), left - f)
        }
    }
}

/// A validator's share of `pool` in proportion to its score among `sum`.
pub open spec fn proportional_share(score: int, pool: int, sum: int) -> int {
    if sum == 0 { 0 } else { pool * score / sum }
}

/// A later pass: each qualified validator that holds the floor `f` gets, in
/// rank order, more of what is left without passing the cap `max`: its
/// share of `pool` in proportion to its score when `prop` holds, otherwise
/// up to `step` lamports.
pub open spec fn top_up_pass(
    s: Seq<ScoreOutcome>,
    order: Seq<usize>,
    f: int,
    max: int,
    prop: bool,
    pool: int,
    sum: int,
    step: int,
    start: (Seq<u64>, int),
    p: int,
) -> (Seq<u64>, int)
    decreases p,
{
    if p <= 0 {
        start
    } else {
        let (t, left) = top_up_pass(s, order, f, max, prop, pool, sum, step, start, p - 1);
        let i = order[p - 1] as int;
        if s[i].disqualified || t[i] < f {
            (t, left)
        } else {
            let want = if prop { proportional_share(s[i].score as int, pool, sum) } else { step };
            let add = min(min(max - t[i], left), want);
            (t.update(i, (t[i] + add) as u64), left - add)
        }
    }
}

/// Target stake of each validator: only the qualified validators ranked
/// before the cutoff receive stake. Each first gets the floor (the minimum
/// stake, at least one lamport) while the stake and the cap allow; what is
/// left is shared in proportion to score; the rounding remainder then goes
/// one lamport per validator in rank order, and whatever is still left goes
/// down the ranking, each validator at most `max`.
pub open spec fn allocation(s: Seq<ScoreOutcome>, order: Seq<usize>, total: int, mn: int, max: int) -> Seq<u64> {
    let c = cutoff(s.len() as int);
    let f = floor_stake(mn);
    let sum = band_score_sum(s, order, c);
    let base = base_pass(s, order, f, max, total, c);
    let shared = top_up_pass(s, order, f, max, true, base.1, sum, 0, base, c);
    let spread = top_up_pass(s, order, f, max, false, 0, 0, 1, shared, c);
    top_up_pass(s, order, f, max, false, 0, 0, max, spread, c).0
}

/// With a floor the cap allows and enough stake for a floor each, the
/// validators funded are exactly the qualified ones ranked before the cutoff.
pub open spec fn funds_whole_band(s: Seq<ScoreOutcome>, order: Seq<usize>, total: int, mn: int, max: int) -> bool {
    floor_stake(mn) <= max && floor_stake(mn) * band_count(s, order, cutoff(s.len() as int)) <= total
}

/// Ranks validators by score, highest first, equal scores by index.
pub fn rank_validators(scores: &Vec<ScoreOutcome>) -> (order: Vec<usize>)
    ensures
        is_ranking(scores@, order@),
{
    let ghost s = scores@;
    let n = scores.len();
    let mut order: Vec<usize> = Vec::new();
    let mut k: usize = 0;
    while k < n
        invariant
            0 <= k <= n,
            n == s.len(),
            s == scores@,
            order.len() == k,
            forall|p: int| 0 <= p < order.len() ==> #[trigger] order@[p] < k,
            forall|i: int| 0 <= i < k ==> #[trigger] lists(order@, i),
            forall|p: int, q: int|
                0 <= p < q < order.len() ==> ranked_before(s, #[trigger] order@[p] as int, #[trigger] order@[q] as int),
        decreases n - k,
    {
        let mut pos: usize = 0;
        while pos < order.len() && scores[order[pos]].score >= scores[k].score
            invariant
                0 <= pos <= order.len(),
                k < n,
                n == s.len(),
                s == scores@,
                forall|p: int| 0 <= p < order.len() ==> #[trigger] order@[p] < k,
                forall|p: int| 0 <= p < pos ==> ranked_before(s, #[trigger] order@[p] as int, k as int),
            decreases order.len() - pos,
        {
            pos = pos + 1;
        }
        let ghost old_order = order@;
        proof {
            if pos < order.len() {
                assert(ranked_before(s, k as int, old_order[pos as int] as int));
            }
        }
        order.insert(pos, k);
        proof {
            assert(order@ == old_order.insert(pos as int, k));
            assert forall|p: int, q: int|
                0 <= p < q < order.len() implies ranked_before(s, #[trigger] order@[p] as int, #[trigger] order@[q] as int) by {
                if q < pos {
                } else if q == pos {
                    assert(order@[p] == old_order[p]);
                } else if p < pos {
                    assert(order@[q] == old_order[q - 1]);
                    assert(ranked_before(s, old_order[p] as int, k as int));
                } else if p == pos {
                    assert(order@[q] == old_order[q - 1]);
                    if q - 1 > pos {
                        assert(ranked_before(s, old_order[pos as int] as int, old_order[q - 1] as int));
                    }
                } else {
                    assert(order@[q] == old_order[q - 1]);
                    assert(order@[p] == old_order[p - 1]);
                }
            }
            assert forall|i: int| 0 <= i < k + 1 implies #[trigger] lists(order@, i) by {
                if i == k {
                    assert(order@[pos as int] == k);
                } else {
                    assert(lists(old_order, i));
                    let p0 = choose|p: int| 0 <= p < old_order.len() && old_order[p] == i;
                    if p0 < pos {
                        assert(order@[p0] == i);
                    } else {
                        assert(order@[p0 + 1] == i);
                    }
                }
            }
            assert forall|p: int| 0 <= p < order.len() implies #[trigger] order@[p] < k + 1 by {
                if p < pos {
                    assert(order@[p] == old_order[p]);
                } else if p > pos {
                    assert(order@[p] == old_order[p - 1]);
                }
            }
        }
        k = k + 1;
    }
    order
}

/// Sum of a sequence of lamport amounts.
pub open spec fn total_of(t: Seq<u64>) -> int
    decreases t.len(),
{
    if t.len() == 0 {
        0
    } else {
        total_of(t.drop_last()) + t.last()
    }
}

proof fn lemma_total_update(t: Seq<u64>, i: int, x: u64)
    requires
        0 <= i < t.len(),
    ensures
        total_of(t.update(i, x)) == total_of(t) - t[i] + x,
    decreases t.len(),
{
    if i == t.len() - 1 {
        assert(t.update(i, x).drop_last() =~= t.drop_last());
    } else {
        assert(t.update(i, x).drop_last() =~= t.drop_last().update(i, x));
        lemma_total_update(t.drop_last(), i, x);
    }
}

proof fn lemma_total_zeros(n: nat)
    ensures
        total_of(Seq::new(n, |i: int| 0u64)) == 0,
    decreases n,
{
    if n > 0 {
        assert(Seq::new(n, |i: int| 0u64).drop_last() =~= Seq::new((n - 1) as nat, |i: int| 0u64));
        lemma_total_zeros((n - 1) as nat);
    }
}

/// The cutoff, `floor(n * 9 / 10)`.
pub fn cutoff_index(n: usize) -> (c: usize)
    ensures
        c == cutoff(n as int),
        c <= n,
{
    ((n as u128) * 9 / 10) as usize
}

/// What every pass keeps: lengths, the stake accounted for, the bounds of
/// each target, and zeros outside the qualified band.
pub open spec fn pass_state_ok(s: Seq<ScoreOutcome>, order: Seq<usize>, f: int, max: int, total: int, st: (Seq<u64>, int)) -> bool {
    let (t, left) = st;
    &&& t.len() == s.len()
    &&& forall|j: int| 0 <= j < t.len() ==> #[trigger] t[j] <= max
    &&& forall|j: int| 0 <= j < t.len() ==> #[trigger] t[j] == 0 || t[j] >= f
    &&& 0 <= left
    &&& total_of(t) + left == total
    &&& forall|q: int| cutoff(s.len() as int) <= q < s.len() ==> t[#[trigger] order[q] as int] == 0
    &&& forall|j: int| 0 <= j < s.len() && (#[trigger] s[j]).disqualified ==> t[j] == 0
}

fn top_up_targets(
    scores: &Vec<ScoreOutcome>,
    order: &Vec<usize>,
    c: usize,
    f: u64,
    max_stake: u64,
    prop: bool,
    pool: u64,
    sum: u128,
    step: u64,
    targets: &mut Vec<u64>,
    left: &mut u64,
)
    requires
        is_ranking(scores@, order@),
        c == cutoff(scores@.len() as int),
        f >= 1,
        pass_state_ok(scores@, order@, f as int, max_stake as int, total_of(old(targets)@) + *old(left), (old(targets)@, *old(left) as int)),
    ensures
        (final(targets)@, *final(left) as int) == top_up_pass(scores@, order@, f as int, max_stake as int, prop, pool as int, sum as int, step as int, (old(targets)@, *old(left) as int), c as int),
        pass_state_ok(scores@, order@, f as int, max_stake as int, total_of(old(targets)@) + *old(left), (final(targets)@, *final(left) as int)),
{
    let ghost s = scores@;
    let ghost o = order@;
    let ghost start = (targets@, *left as int);
    let ghost whole = total_of(targets@) + *left;
    let n = scores.len();
    let mut p: usize = 0;
    while p < c
        invariant
            0 <= p <= c <= n,
            c == cutoff(n as int),
            n == s.len(),
            s == scores@,
            o == order@,
            is_ranking(s, o),
            f >= 1,
            (targets@, *left as int) == top_up_pass(s, o, f as int, max_stake as int, prop, pool as int, sum as int, step as int, start, p as int),
            pass_state_ok(s, o, f as int, max_stake as int, whole, (targets@, *left as int)),
        decreases c - p,
    {
        let i = order[p];
        assert(o[p as int] < n);
        if !scores[i].disqualified && targets[i] >= f {
            let room = max_stake - targets[i];
            let a1: u64 = if room < *left { room } else { *left };
            let add: u64 = if prop {
                let score = scores[i].score;
                assert((pool as u128) * (score as u128) <= u64::MAX as int * (u64::MAX as int)) by (nonlinear_arith)
                    requires pool <= u64::MAX, score <= u64::MAX, pool >= 0, score >= 0;
                let want: u128 = if sum == 0 { 0 } else { (pool as u128) * (score as u128) / sum };
                if (a1 as u128) < want { a1 } else { want as u64 }
            } else {
                if a1 < step { a1 } else { step }
            };
            let t = targets[i] + add;
            proof {
                lemma_total_update(targets@, i as int, t);
                let t1 = targets@.update(i as int, t);
                assert forall|j: int| 0 <= j < t1.len() implies #[trigger] t1[j] <= max_stake && (t1[j] == 0 || t1[j] >= f) by {
                    if j != i {
                        assert(t1[j] == targets@[j]);
                    }
                }
                assert forall|q: int| c <= q < n implies t1[#[trigger] o[q] as int] == 0 by {
                    assert(ranked_before(s, o[p as int] as int, o[q] as int));
                }
            }
            targets.set(i, t);
            *left = *left - add;
        }
        p = p + 1;
    }
}

/// Target stake of each validator, for the ranking `order` of `scores`,
/// `total_stake` lamports to hand out, at least `min_stake` (and one
/// lamport) or nothing, and at most `max_stake` per validator.
pub fn compute_targets(
    scores: &Vec<ScoreOutcome>,
    order: &Vec<usize>,
    total_stake: u64,
    min_stake: u64,
    max_stake: u64,
) -> (targets: Vec<u64>)
    requires
        is_ranking(scores@, order@),
    ensures
        targets@ == allocation(scores@, order@, total_stake as int, min_stake as int, max_stake as int),
        targets@.len() == scores@.len(),
        forall|p: int|
            cutoff(scores@.len() as int) <= p < scores@.len() ==> targets@[#[trigger] order@[p] as int] == 0,
        forall|i: int| 0 <= i < scores@.len() && (#[trigger] scores@[i]).disqualified ==> targets@[i] == 0,
        forall|i: int| 0 <= i < scores@.len() ==> #[trigger] targets@[i] <= max_stake,
        forall|i: int| 0 <= i < scores@.len() ==> #[trigger] targets@[i] == 0 || targets@[i] >= min_stake,
        total_of(targets@) <= total_stake,
        funds_whole_band(scores@, order@, total_stake as int, min_stake as int, max_stake as int) ==> forall|p: int|
            0 <= p < scores@.len() ==> (targets@[#[trigger] order@[p] as int] > 0 <==> p < cutoff(scores@.len() as int)
                && !scores@[order@[p] as int].disqualified),
{
    let ghost s = scores@;
    let ghost o = order@;
    let n = scores.len();
    let c = cutoff_index(n);
    let f: u64 = if min_stake > 1 { min_stake } else { 1 };
    let mut sum: u128 = 0;
    let mut p: usize = 0;
    while p < c
        invariant
            0 <= p <= c <= n,
            c == cutoff(n as int),
            n == s.len(),
            s == scores@,
            o == order@,
            is_ranking(s, o),
            sum == band_score_sum(s, o, p as int),
            sum <= p * (u64::MAX as int),
        decreases c - p,
    {
        let i = order[p];
        assert(o[p as int] < n);
        assert(sum + u64::MAX <= (p + 1) * (u64::MAX as int)) by (nonlinear_arith)
            requires sum <= p * (u64::MAX as int);
        assert((p + 1) * (u64::MAX as int) <= usize::MAX as int * (u64::MAX as int)) by (nonlinear_arith)
            requires p + 1 <= usize::MAX;
        if !scores[i].disqualified {
            sum = sum + scores[i].score as u128;
        }
        p = p + 1;
    }
    let mut targets: Vec<u64> = Vec::new();
    let mut k: usize = 0;
    while k < n
        invariant
            0 <= k <= n,
            targets@ == Seq::new(k as nat, |j: int| 0u64),
        decreases n - k,
    {
        targets.push(0);
        k = k + 1;
        assert(targets@ =~= Seq::new(k as nat, |j: int| 0u64));
    }
    assert(targets@ =~= Seq::new(s.len(), |j: int| 0u64));
    proof {
        lemma_total_zeros(s.len());
    }
    let mut left: u64 = total_stake;
    p = 0;
    while p < c
        invariant
            0 <= p <= c <= n,
            c == cutoff(n as int),
            n == s.len(),
            s == scores@,
            o == order@,
            is_ranking(s, o),
            f as int == floor_stake(min_stake as int),
            (targets@, left as int) == base_pass(s, o, f as int, max_stake as int, total_stake as int, p as int),
            pass_state_ok(s, o, f as int, max_stake as int, total_stake as int, (targets@, left as int)),
            forall|q: int| p <= q < n ==> targets@[#[trigger] o[q] as int] == 0,
        decreases c - p,
    {
        let i = order[p];
        assert(o[p as int] < n);
        if !scores[i].disqualified && f <= max_stake && f <= left {
            proof {
                lemma_total_update(targets@, i as int, f);
                let t1 = targets@.update(i as int, f);
                assert forall|j: int| 0 <= j < t1.len() implies #[trigger] t1[j] <= max_stake && (t1[j] == 0 || t1[j] >= f) by {
                    if j != i {
                        assert(t1[j] == targets@[j]);
                    }
                }
                assert forall|q: int| p + 1 <= q < n implies t1[#[trigger] o[q] as int] == 0 by {
                    assert(ranked_before(s, o[p as int] as int, o[q] as int));
                }
            }
            targets.set(i, f);
            left = left - f;
        }
        p = p + 1;
    }
    let pool = left;
    top_up_targets(scores, order, c, f, max_stake, true, pool, sum, 0, &mut targets, &mut left);
    top_up_targets(scores, order, c, f, max_stake, false, 0, 0, 1, &mut targets, &mut left);
    top_up_targets(scores, order, c, f, max_stake, false, 0, 0, max_stake, &mut targets, &mut left);
    proof {
        lemma_allocation_passes(s, o, total_stake, min_stake, max_stake);
    }
    targets
}

/// A ranking of the validators and the target stake of each.
pub struct Allocation {
    pub ranking: Vec<usize>,
    pub targets: Vec<u64>,
}

/// Ranks the validators and computes each one's target stake.
pub fn allocate(scores: &Vec<ScoreOutcome>, total_stake: u64, min_stake: u64, max_stake: u64) -> (r: Allocation)
    ensures
        is_ranking(scores@, r.ranking@),
        r.targets@ == allocation(scores@, r.ranking@, total_stake as int, min_stake as int, max_stake as int),
        r.targets@.len() == scores@.len(),
        forall|p: int|
            cutoff(scores@.len() as int) <= p < scores@.len() ==> r.targets@[#[trigger] r.ranking@[p] as int] == 0,
        forall|i: int| 0 <= i < scores@.len() && (#[trigger] scores@[i]).disqualified ==> r.targets@[i] == 0,
        forall|i: int| 0 <= i < scores@.len() ==> #[trigger] r.targets@[i] <= max_stake,
        forall|i: int| 0 <= i < scores@.len() ==> #[trigger] r.targets@[i] == 0 || r.targets@[i] >= min_stake,
        total_of(r.targets@) <= total_stake,
        funds_whole_band(scores@, r.ranking@, total_stake as int, min_stake as int, max_stake as int) ==> forall|p: int|
            0 <= p < scores@.len() ==> (r.targets@[#[trigger] r.ranking@[p] as int] > 0 <==> p < cutoff(scores@.len() as int)
                && !scores@[r.ranking@[p] as int].disqualified),
{
    let ranking = rank_validators(scores);
    let targets = compute_targets(scores, &ranking, total_stake, min_stake, max_stake);
    Allocation { ranking, targets }
}

proof fn lemma_band_count_mono(s: Seq<ScoreOutcome>, order: Seq<usize>, p: int, q: int)
    requires
        0 <= p <= q,
    ensures
        band_count(s, order, p) <= band_count(s, order, q),
        band_count(s, order, p) >= 0,
    decreases q,
{
    if q > p {
        lemma_band_count_mono(s, order, p, q - 1);
    } else if p > 0 {
        lemma_band_count_mono(s, order, p - 1, p - 1);
    }
}

/// Some qualified validator at the first `p` positions holds no stake in `t`.
pub open spec fn some_unfunded(s: Seq<ScoreOutcome>, order: Seq<usize>, t: Seq<u64>, p: int) -> bool {
    exists|q: int| 0 <= q < p && !s[order[q] as int].disqualified && #[trigger] t[order[q] as int] == 0
}

proof fn lemma_base_pass(s: Seq<ScoreOutcome>, order: Seq<usize>, f: int, max: int, total: int, p: int)
    requires
        is_ranking(s, order),
        0 <= p <= cutoff(s.len() as int),
        1 <= f,
        0 <= max <= u64::MAX,
        0 <= total,
    ensures
        pass_state_ok(s, order, f, max, total, base_pass(s, order, f, max, total, p)),
        forall|q: int| p <= q < s.len() ==> base_pass(s, order, f, max, total, p).0[#[trigger] order[q] as int] == 0,
        f <= max && f * band_count(s, order, cutoff(s.len() as int)) <= total ==> ({
            let (t, left) = base_pass(s, order, f, max, total, p);
            &&& left == total - f * band_count(s, order, p)
            &&& forall|q: int| 0 <= q < p && !s[#[trigger] order[q] as int].disqualified ==> t[order[q] as int] == f
        }),
        ({
            let (t, left) = base_pass(s, order, f, max, total, p);
            &&& some_unfunded(s, order, t, p) ==> f > max || left < f
            &&& forall|q1: int, q2: int|
                0 <= q1 < q2 < p && !s[order[q1] as int].disqualified && !s[order[q2] as int].disqualified
                    && #[trigger] t[order[q2] as int] != 0 ==> #[trigger] t[order[q1] as int] != 0
        }),
    decreases p,
{
    let c = cutoff(s.len() as int);
    if p <= 0 {
        lemma_total_zeros(s.len());
    } else {
        lemma_base_pass(s, order, f, max, total, p - 1);
        let (t, left) = base_pass(s, order, f, max, total, p - 1);
        let i = order[p - 1] as int;
        assert forall|q: int| 0 <= q < p - 1 implies #[trigger] order[q] != order[p - 1] by {
            assert(ranked_before(s, order[q] as int, order[p - 1] as int));
        }
        assert forall|q: int| p <= q < s.len() implies #[trigger] order[q] != order[p - 1] by {
            assert(ranked_before(s, order[p - 1] as int, order[q] as int));
        }
        if f <= max && f * band_count(s, order, c) <= total && !s[i].disqualified {
            lemma_band_count_mono(s, order, p, c);
            let bp = band_count(s, order, p);
            let bc = band_count(s, order, c);
            assert(f * bp <= f * bc) by (nonlinear_arith)
                requires bp <= bc, f >= 1;
            assert(f * bp == f * band_count(s, order, p - 1) + f) by (nonlinear_arith)
                requires bp == band_count(s, order, p - 1) + 1;
        }
        if !(s[i].disqualified || f > max || f > left) {
            lemma_total_update(t, i, f as u64);
            let t1 = t.update(i, f as u64);
            assert forall|j: int| 0 <= j < t1.len() implies #[trigger] t1[j] <= max && (t1[j] == 0 || t1[j] >= f) by {
                if j != i {
                    assert(t1[j] == t[j]);
                }
            }
        }
        if f <= max && f * band_count(s, order, c) <= total && s[i].disqualified {
            assert(f * band_count(s, order, p) == f * band_count(s, order, p - 1));
        }
        let (t2, left2) = base_pass(s, order, f, max, total, p);
        if some_unfunded(s, order, t2, p) {
            let q = choose|q: int| 0 <= q < p && !s[order[q] as int].disqualified && #[trigger] t2[order[q] as int] == 0;
            if q < p - 1 {
                assert(t2[order[q] as int] == t[order[q] as int]);
                assert(some_unfunded(s, order, t, p - 1));
            }
        }
        assert forall|q1: int, q2: int|
            0 <= q1 < q2 < p && !s[order[q1] as int].disqualified && !s[order[q2] as int].disqualified
                && #[trigger] t2[order[q2] as int] != 0 implies #[trigger] t2[order[q1] as int] != 0 by {
            assert(t2[order[q1] as int] == t[order[q1] as int]);
            if q2 == p - 1 {
                if t[order[q1] as int] == 0 {
                    assert(some_unfunded(s, order, t, p - 1));
                }
            } else {
                assert(t2[order[q2] as int] == t[order[q2] as int]);
            }
        }
    }
}

proof fn lemma_top_up_pass(
    s: Seq<ScoreOutcome>,
    order: Seq<usize>,
    total: int,
    f: int,
    max: int,
    prop: bool,
    pool: int,
    sum: int,
    step: int,
    start: (Seq<u64>, int),
    p: int,
)
    requires
        is_ranking(s, order),
        0 <= p <= cutoff(s.len() as int),
        1 <= f,
        0 <= max <= u64::MAX,
        0 <= step,
        0 <= pool,
        0 <= sum,
        pass_state_ok(s, order, f, max, total, start),
    ensures
        pass_state_ok(s, order, f, max, total, top_up_pass(s, order, f, max, prop, pool, sum, step, start, p)),
        forall|j: int| 0 <= j < s.len() ==> #[trigger] top_up_pass(s, order, f, max, prop, pool, sum, step, start, p).0[j] >= start.0[j],
        forall|j: int| 0 <= j < s.len() && start.0[j] == 0 ==> #[trigger] top_up_pass(s, order, f, max, prop, pool, sum, step, start, p).0[j] == 0,
        !prop && step >= max ==> ({
            let (t, left) = top_up_pass(s, order, f, max, prop, pool, sum, step, start, p);
            forall|q: int|
                0 <= q < p && !s[#[trigger] order[q] as int].disqualified ==> t[order[q] as int] == max
                    || t[order[q] as int] < f || left == 0
        }),
    decreases p,
{
    if p > 0 {
        lemma_top_up_pass(s, order, total, f, max, prop, pool, sum, step, start, p - 1);
        let (t, left) = top_up_pass(s, order, f, max, prop, pool, sum, step, start, p - 1);
        let i = order[p - 1] as int;
        assert(p - 1 < cutoff(s.len() as int));
        if !s[i].disqualified && t[i] >= f {
            let sc = s[i].score as int;
            if sum != 0 {
                assert(pool * sc / sum >= 0) by (nonlinear_arith)
                    requires pool >= 0, sc >= 0, sum > 0;
            }
            let want = if prop { proportional_share(sc, pool, sum) } else { step };
            let add = min(min(max - t[i], left), want);
            assert(add >= 0);
            lemma_total_update(t, i, (t[i] + add) as u64);
            let t1 = t.update(i, (t[i] + add) as u64);
            assert forall|j: int| 0 <= j < t1.len() implies #[trigger] t1[j] <= max && (t1[j] == 0 || t1[j] >= f) by {
                if j != i {
                    assert(t1[j] == t[j]);
                }
            }
            assert forall|q: int| cutoff(s.len() as int) <= q < s.len() implies t1[#[trigger] order[q] as int] == 0 by {
                assert(ranked_before(s, order[p - 1] as int, order[q] as int));
            }
        }
        assert forall|q: int| 0 <= q < p - 1 implies #[trigger] order[q] != order[p - 1] by {
            assert(ranked_before(s, order[q] as int, order[p - 1] as int));
        }
    }
}

proof fn lemma_allocation_passes(s: Seq<ScoreOutcome>, order: Seq<usize>, total: u64, mn: u64, max: u64)
    requires
        is_ranking(s, order),
    ensures
        ({
            let c = cutoff(s.len() as int);
            let f = floor_stake(mn as int);
            let t = allocation(s, order, total as int, mn as int, max as int);
            &&& pass_state_ok(s, order, f, max as int, total as int, (t, total - total_of(t)))
            &&& forall|q: int|
                0 <= q < c && !s[#[trigger] order[q] as int].disqualified ==> t[order[q] as int] == max
                    || t[order[q] as int] < f || total_of(t) == total
            &&& funds_whole_band(s, order, total as int, mn as int, max as int) ==> forall|q: int|
                0 <= q < s.len() ==> (t[#[trigger] order[q] as int] > 0 <==> q < c && !s[order[q] as int].disqualified)
            &&& forall|q1: int, q2: int|
                0 <= q1 < q2 < s.len() && !s[order[q1] as int].disqualified && !s[order[q2] as int].disqualified
                    && #[trigger] t[order[q2] as int] > 0 ==> #[trigger] t[order[q1] as int] > 0
        }),
{
    let c = cutoff(s.len() as int);
    let f = floor_stake(mn as int);
    let sum = band_score_sum(s, order, c);
    lemma_band_sum_nonneg(s, order, c);
    lemma_base_pass(s, order, f, max as int, total as int, c);
    let base = base_pass(s, order, f, max as int, total as int, c);
    lemma_top_up_pass(s, order, total as int, f, max as int, true, base.1, sum, 0, base, c);
    let shared = top_up_pass(s, order, f, max as int, true, base.1, sum, 0, base, c);
    lemma_top_up_pass(s, order, total as int, f, max as int, false, 0, 0, 1, shared, c);
    let spread = top_up_pass(s, order, f, max as int, false, 0, 0, 1, shared, c);
    lemma_top_up_pass(s, order, total as int, f, max as int, false, 0, 0, max as int, spread, c);
    let last = top_up_pass(s, order, f, max as int, false, 0, 0, max as int, spread, c);
    assert forall|q1: int, q2: int|
        0 <= q1 < q2 < s.len() && !s[order[q1] as int].disqualified && !s[order[q2] as int].disqualified
            && #[trigger] last.0[order[q2] as int] > 0 implies #[trigger] last.0[order[q1] as int] > 0 by {
        let j1 = order[q1] as int;
        let j2 = order[q2] as int;
        if q2 < c {
            if base.0[j2] == 0 {
                assert(shared.0[j2] == 0);
                assert(spread.0[j2] == 0);
            }
            assert(base.0[j2] != 0);
            assert(base.0[j1] != 0);
            assert(last.0[j1] >= base.0[j1]) by {
                assert(shared.0[j1] >= base.0[j1]);
                assert(spread.0[j1] >= shared.0[j1]);
            }
        }
    }
    if funds_whole_band(s, order, total as int, mn as int, max as int) {
        assert forall|q: int| 0 <= q < s.len() implies (last.0[#[trigger] order[q] as int] > 0 <==> q < c
            && !s[order[q] as int].disqualified) by {
            let j = order[q] as int;
            if q < c && !s[j].disqualified {
                assert(base.0[j] == f);
                assert(shared.0[j] >= base.0[j]);
                assert(spread.0[j] >= shared.0[j]);
                assert(last.0[j] >= spread.0[j]);
            }
        }
    }
}

/// Only the top band receives stake: every validator ranked at or past the
/// cutoff `floor(n * 9 / 10)`, and every disqualified validator, has a zero
/// target, so at most that many validators receive stake, fewer when some
/// in the band are disqualified. Every target is zero or at least the
/// minimum (and one lamport), never more than the cap, and together they
/// never pass the total.
pub proof fn lemma_only_top_band_receives_stake(s: Seq<ScoreOutcome>, order: Seq<usize>, total: u64, mn: u64, max: u64)
    requires
        is_ranking(s, order),
    ensures
        pass_state_ok(s, order, floor_stake(mn as int), max as int, total as int, ({
            let t = allocation(s, order, total as int, mn as int, max as int);
            (t, total - total_of(t))
        })),
        total_of(allocation(s, order, total as int, mn as int, max as int)) <= total,
{
    lemma_allocation_passes(s, order, total, mn, max);
}

/// When the cap allows the floor (the minimum stake, at least one lamport)
/// and the total covers a floor for every qualified validator ranked before
/// the cutoff, a validator receives stake exactly when it is qualified and
/// ranked before the cutoff: with none disqualified, exactly
/// `floor(n * 9 / 10)` validators are funded.
pub proof fn lemma_top_band_funded(s: Seq<ScoreOutcome>, order: Seq<usize>, total: u64, mn: u64, max: u64)
    requires
        is_ranking(s, order),
        funds_whole_band(s, order, total as int, mn as int, max as int),
    ensures
        forall|q: int|
            0 <= q < s.len() ==> (allocation(s, order, total as int, mn as int, max as int)[#[trigger] order[q] as int] > 0
                <==> q < cutoff(s.len() as int) && !s[order[q] as int].disqualified),
{
    lemma_allocation_passes(s, order, total, mn, max);
}

/// The validators funded are a prefix of the qualified ones in rank order:
/// when a qualified validator receives stake, so does every qualified
/// validator ranked ahead of it.
pub proof fn lemma_funded_prefix(s: Seq<ScoreOutcome>, order: Seq<usize>, total: u64, mn: u64, max: u64)
    requires
        is_ranking(s, order),
    ensures
        forall|q1: int, q2: int|
            0 <= q1 < q2 < s.len() && !s[order[q1] as int].disqualified && !s[order[q2] as int].disqualified
                && #[trigger] allocation(s, order, total as int, mn as int, max as int)[order[q2] as int] > 0
                ==> #[trigger] allocation(s, order, total as int, mn as int, max as int)[order[q1] as int] > 0,
{
    lemma_allocation_passes(s, order, total, mn, max);
}

/// Every funded validator ranked before the cutoff ends at the cap unless
/// the whole stake has been handed out; and none is funded below the floor.
pub proof fn lemma_top_band_filled(s: Seq<ScoreOutcome>, order: Seq<usize>, total: u64, mn: u64, max: u64)
    requires
        is_ranking(s, order),
    ensures
        forall|p: int|
            0 <= p < cutoff(s.len() as int) && !s[#[trigger] order[p] as int].disqualified
                ==> allocation(s, order, total as int, mn as int, max as int)[order[p] as int] == max
                || allocation(s, order, total as int, mn as int, max as int)[order[p] as int] == 0
                || total_of(allocation(s, order, total as int, mn as int, max as int)) == total,
{
    lemma_allocation_passes(s, order, total, mn, max);
}

proof fn lemma_band_sum_nonneg(s: Seq<ScoreOutcome>, order: Seq<usize>, p: int)
    ensures
        band_score_sum(s, order, p) >= 0,
    decreases p,
{
    if p > 0 {
        lemma_band_sum_nonneg(s, order, p - 1);
    }
}

} // verus!
