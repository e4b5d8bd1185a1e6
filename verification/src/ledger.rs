//! The mathematical model of the fee-distribution ledger.
//!
//! A [`Pool`] is the shared record together with the stake positions of all
//! participants, over unbounded naturals. For every operation there is one
//! function that says, for any pool and any inputs, whether the operation is
//! accepted and what the pool is afterwards. The executable operations in
//! [`crate::fundraising`] are proved to compute exactly these functions.

use vstd::prelude::*;
use crate::fundraising::FundraisingErrors;

verus! {

/// One participant's stake.
pub struct Position {
    /// Identity of the participant.
    pub owner: Seq<u8>,
    /// Shares currently locked by the owner.
    pub staked: nat,
    /// Cumulative fees of the pool when this position was last settled.
    pub checkpoint: nat,
    /// Slot number recorded when the position was last staked into.
    pub mark: nat,
}

/// The pool and the positions of everyone who has ever staked.
pub struct Pool {
    pub window_start: int,
    pub window_end: int,
    /// Value raised so far.
    pub contributed: nat,
    /// Fees ever deposited.
    pub fees: nat,
    /// Shares held in custody for all stakers.
    pub staked: nat,
    /// Identity of the share asset.
    pub share_asset: Seq<u8>,
    /// Positions in order of creation.
    pub positions: Seq<Position>,
}

/// The largest amount a counter of the ledger can hold.
pub open spec fn limit() -> nat {
    0xffff_ffff_ffff_ffff
}

/// Sum of the stakes of all positions.
pub open spec fn total_of(positions: Seq<Position>) -> nat
    decreases positions.len(),
{
    if positions.len() == 0 {
        0
    } else {
        total_of(positions.drop_last()) + positions.last().staked
    }
}

/// Some position belongs to `owner`.
pub open spec fn holds(positions: Seq<Position>, owner: Seq<u8>) -> bool {
    exists|i: int| 0 <= i < positions.len() && #[trigger] positions[i].owner == owner
}

/// `i` is the first position that belongs to `owner`.
pub open spec fn is_slot_of(positions: Seq<Position>, owner: Seq<u8>, i: int) -> bool {
    &&& 0 <= i < positions.len()
    &&& positions[i].owner == owner
    &&& forall|j: int| 0 <= j < i ==> #[trigger] positions[j].owner != owner
}

/// Index of the position of `owner`; meaningful when `holds(positions, owner)`.
pub open spec fn slot_of(positions: Seq<Position>, owner: Seq<u8>) -> int {
    choose|i: int| is_slot_of(positions, owner, i)
}

/// The part of `delta` fees that falls to `staked` out of `total` staked
/// shares, rounded down; nothing when nothing is staked at all.
pub open spec fn reward_share(delta: nat, staked: nat, total: nat) -> nat {
    if total == 0 {
        0
    } else {
        (delta * staked) / total
    }
}

impl Pool {
    /// No participant has two positions.
    pub open spec fn distinct_owners(self) -> bool {
        forall|i: int, j: int|
            0 <= i < j < self.positions.len() ==> #[trigger] self.positions[i].owner
                != #[trigger] self.positions[j].owner
    }

    /// The stakes of the positions add up to the pool's total.
    pub open spec fn conserved(self) -> bool {
        total_of(self.positions) == self.staked
    }

    /// No position was settled against more fees than were ever collected.
    pub open spec fn checkpoints_in_range(self) -> bool {
        forall|i: int|
            0 <= i < self.positions.len() ==> (#[trigger] self.positions[i]).checkpoint
                <= self.fees
    }

    /// The invariants of the ledger.
    pub open spec fn wf(self) -> bool {
        &&& self.distinct_owners()
        &&& self.conserved()
        &&& self.checkpoints_in_range()
    }

    /// The position of `owner`, if there is one.
    pub open spec fn position_of(self, owner: Seq<u8>) -> Option<Position> {
        if holds(self.positions, owner) {
            Some(self.positions[slot_of(self.positions, owner)])
        } else {
            None
        }
    }

    /// Fees collected since the position of `owner` was last settled.
    pub open spec fn unsettled_fees(self, owner: Seq<u8>) -> nat {
        match self.position_of(owner) {
            Some(p) => (self.fees - p.checkpoint) as nat,
            None => 0,
        }
    }

    /// What a claim by `owner` would pay now.
    pub open spec fn accrued(self, owner: Seq<u8>) -> nat {
        match self.position_of(owner) {
            Some(p) => reward_share(self.unsettled_fees(owner), p.staked, self.staked),
            None => 0,
        }
    }
}

/// A contribution of `amount` at time `now`.
///
/// Accepted while the funding window is open and the counter has room; it
/// then adds `amount` to the value raised and touches nothing else.
pub open spec fn contribute_outcome(pool: Pool, now: i64, amount: u64) -> Result<
    Pool,
    FundraisingErrors,
> {
    if now > pool.window_end {
        Err(FundraisingErrors::FundingClosed)
    } else if pool.contributed + amount > limit() {
        Err(FundraisingErrors::ArithmeticOverflow)
    } else {
        Ok(Pool { contributed: pool.contributed + amount as nat, ..pool })
    }
}

/// A deposit of `amount` fees into the pool.
pub open spec fn deposit_outcome(pool: Pool, amount: u64) -> Result<Pool, FundraisingErrors> {
    if pool.fees + amount > limit() {
        Err(FundraisingErrors::ArithmeticOverflow)
    } else {
        Ok(Pool { fees: pool.fees + amount as nat, ..pool })
    }
}

/// The positions after `owner` has staked `amount` more while the pool had
/// collected `fees`: an existing position grows and is settled anew, a
/// missing one is appended.
pub open spec fn with_stake(
    positions: Seq<Position>,
    owner: Seq<u8>,
    amount: u64,
    fees: nat,
    slot: u64,
) -> Seq<Position> {
    if holds(positions, owner) {
        let i = slot_of(positions, owner);
        positions.update(
            i,
            Position {
                staked: positions[i].staked + amount as nat,
                checkpoint: fees,
                mark: slot as nat,
                ..positions[i]
            },
        )
    } else {
        positions.push(
            Position { owner, staked: amount as nat, checkpoint: fees, mark: slot as nat },
        )
    }
}

/// `owner`, who holds `free` unstaked shares, stakes `amount` of them at
/// slot `slot`.
///
/// Rejected when `amount` exceeds `free`, or when the position or the pool
/// total would pass the limit. Otherwise the position grows by `amount`, its
/// checkpoint becomes the fees collected so far (rewards accrued on the
/// earlier stake and not claimed are forfeited), and the total grows by
/// `amount`.
pub open spec fn stake_outcome(pool: Pool, owner: Seq<u8>, free: u64, amount: u64, slot: u64)
    -> Result<Pool, FundraisingErrors> {
    if amount > free {
        Err(FundraisingErrors::InsufficientFreeBalance)
    } else if pool.staked + amount > limit() {
        Err(FundraisingErrors::ArithmeticOverflow)
    } else if holds(pool.positions, owner) && pool.positions[slot_of(
        pool.positions,
        owner,
    )].staked + amount > limit() {
        Err(FundraisingErrors::ArithmeticOverflow)
    } else {
        Ok(
            Pool {
                staked: pool.staked + amount as nat,
                positions: with_stake(pool.positions, owner, amount, pool.fees, slot),
                ..pool
            },
        )
    }
}

/// `owner` takes `amount` shares back out of custody.
///
/// Rejected with `InsufficientStake` when `owner` has no position or less
/// than `amount` in it. The checkpoint of the position stays as it was.
pub open spec fn unstake_outcome(pool: Pool, owner: Seq<u8>, amount: u64) -> Result<
    Pool,
    FundraisingErrors,
> {
    match pool.position_of(owner) {
        None => Err(FundraisingErrors::InsufficientStake),
        Some(p) => if p.staked < amount {
            Err(FundraisingErrors::InsufficientStake)
        } else if pool.staked < amount {
            Err(FundraisingErrors::ArithmeticUnderflow)
        } else {
            Ok(
                Pool {
                    staked: (pool.staked - amount) as nat,
                    positions: pool.positions.update(
                        slot_of(pool.positions, owner),
                        Position { staked: (p.staked - amount) as nat, ..p },
                    ),
                    ..pool
                },
            )
        },
    }
}

/// `owner` claims the fees accrued since the checkpoint of their position,
/// to be paid from `custody` into a balance that now holds `balance`.
///
/// The result is the pool afterwards and the reward paid. Without a position
/// nothing happens and nothing is paid. Otherwise the reward is the owner's
/// share, rounded down, of the fees collected since the checkpoint, and the
/// checkpoint moves up to the fees collected so far. The claim is rejected
/// when custody cannot cover the reward or the receiving balance cannot
/// hold it.
pub open spec fn claim_outcome(pool: Pool, owner: Seq<u8>, custody: u64, balance: u64) -> Result<
    (Pool, nat),
    FundraisingErrors,
> {
    match pool.position_of(owner) {
        None => Ok((pool, 0nat)),
        Some(p) => {
            let reward = pool.accrued(owner);
            if pool.fees < p.checkpoint {
                Err(FundraisingErrors::ArithmeticUnderflow)
            } else if reward > limit() {
                Err(FundraisingErrors::ArithmeticOverflow)
            } else if reward > custody {
                Err(FundraisingErrors::ArithmeticUnderflow)
            } else if balance + reward > limit() {
                Err(FundraisingErrors::ArithmeticOverflow)
            } else {
                Ok(
                    (
                        Pool {
                            positions: pool.positions.update(
                                slot_of(pool.positions, owner),
                                Position { checkpoint: pool.fees, ..p },
                            ),
                            ..pool
                        },
                        reward,
                    ),
                )
            }
        },
    }
}

/// The pool right after it was opened at time `now` for shares of `asset`,
/// with a funding window of `period` seconds.
pub open spec fn opened(now: i64, period: i64, asset: Seq<u8>) -> Pool {
    Pool {
        window_start: now as int,
        window_end: now + period,
        contributed: 0,
        fees: 0,
        staked: 0,
        share_asset: asset,
        positions: Seq::empty(),
    }
}

/// The first position of an owner is the one that `slot_of` names.
pub proof fn lemma_slot_is_first(positions: Seq<Position>, owner: Seq<u8>, i: int)
    requires
        is_slot_of(positions, owner, i),
    ensures
        holds(positions, owner),
        slot_of(positions, owner) == i,
{
    let k = slot_of(positions, owner);
    assert(is_slot_of(positions, owner, k));
    if k < i {
        assert(positions[k].owner != owner);
    }
    if i < k {
        assert(positions[i].owner != owner);
    }
}

/// An owner with a position has a first one.
pub proof fn lemma_holder_has_slot(positions: Seq<Position>, owner: Seq<u8>)
    requires
        holds(positions, owner),
    ensures
        is_slot_of(positions, owner, slot_of(positions, owner)),
    decreases positions.len(),
{
    let n = choose|i: int| 0 <= i < positions.len() && #[trigger] positions[i].owner == owner;
    lemma_first_match_below(positions, owner, n);
}

proof fn lemma_first_match_below(positions: Seq<Position>, owner: Seq<u8>, n: int)
    requires
        0 <= n < positions.len(),
        positions[n].owner == owner,
    ensures
        exists|i: int| is_slot_of(positions, owner, i),
    decreases n,
{
    if exists|j: int| 0 <= j < n && #[trigger] positions[j].owner == owner {
        let j = choose|j: int| 0 <= j < n && #[trigger] positions[j].owner == owner;
        lemma_first_match_below(positions, owner, j);
    } else {
        assert(is_slot_of(positions, owner, n));
    }
}

/// Appending a position adds its stake to the sum.
pub proof fn lemma_total_push(positions: Seq<Position>, p: Position)
    ensures
        total_of(positions.push(p)) == total_of(positions) + p.staked,
{
    assert(positions.push(p).drop_last() =~= positions);
}

/// Replacing a position changes the sum by the difference of the stakes.
pub proof fn lemma_total_update(positions: Seq<Position>, i: int, p: Position)
    requires
        0 <= i < positions.len(),
    ensures
        total_of(positions.update(i, p)) == total_of(positions) - positions[i].staked + p.staked,
    decreases positions.len(),
{
    let after = positions.update(i, p);
    if i == positions.len() - 1 {
        assert(after.drop_last() =~= positions.drop_last());
    } else {
        lemma_total_update(positions.drop_last(), i, p);
        assert(after.drop_last() =~= positions.drop_last().update(i, p));
    }
}

/// No single stake exceeds the sum of all.
pub proof fn lemma_total_covers(positions: Seq<Position>, i: int)
    requires
        0 <= i < positions.len(),
    ensures
        positions[i].staked <= total_of(positions),
    decreases positions.len(),
{
    if i < positions.len() - 1 {
        lemma_total_covers(positions.drop_last(), i);
    }
}

/// The sum over the first `n + 1` positions is the sum over the first `n`
/// plus the stake of the next.
pub proof fn lemma_total_take_next(positions: Seq<Position>, n: int)
    requires
        0 <= n < positions.len(),
    ensures
        total_of(positions.take(n + 1)) == total_of(positions.take(n)) + positions[n].staked,
{
    assert(positions.take(n + 1).drop_last() =~= positions.take(n));
}

/// The sum over a prefix never exceeds the sum over all positions.
pub proof fn lemma_total_take_bounded(positions: Seq<Position>, n: int)
    requires
        0 <= n <= positions.len(),
    ensures
        total_of(positions.take(n)) <= total_of(positions),
    decreases positions.len(),
{
    if n == positions.len() {
        assert(positions.take(n) =~= positions);
    } else {
        lemma_total_take_bounded(positions.drop_last(), n);
        assert(positions.drop_last().take(n) =~= positions.take(n));
    }
}

/// The rounded-down share never claims more than its exact proportion, and
/// a stake within the total never earns more than the fees at hand.
pub proof fn lemma_reward_share_bounds(delta: nat, staked: nat, total: nat)
    ensures
        reward_share(delta, staked, total) * total <= delta * staked,
        staked <= total ==> reward_share(delta, staked, total) <= delta,
        staked == 0 || delta == 0 ==> reward_share(delta, staked, total) == 0,
{
    if total > 0 {
        let product = delta * staked;
        assert((product / total) * total <= product) by (nonlinear_arith)
            requires
                total > 0,
                product >= 0,
        ;
        if staked <= total {
            assert(product / total <= delta) by (nonlinear_arith)
                requires
                    total > 0,
                    staked <= total,
                    product == delta * staked,
                    delta >= 0,
                    staked >= 0,
            ;
        }
        if staked == 0 || delta == 0 {
            assert(product == 0) by (nonlinear_arith)
                requires
                    product == delta * staked,
                    staked == 0 || delta == 0,
            ;
        }
    }
}

/// A freshly opened pool meets the invariants.
pub proof fn lemma_opened_is_wf(now: i64, period: i64, asset: Seq<u8>)
    ensures
        opened(now, period, asset).wf(),
{
}

/// Contributions keep each invariant.
pub proof fn lemma_contribute_keeps_invariants(pool: Pool, now: i64, amount: u64)
    ensures
        contribute_outcome(pool, now, amount) matches Ok(next) ==> {
            &&& pool.conserved() ==> next.conserved()
            &&& pool.distinct_owners() ==> next.distinct_owners()
            &&& pool.checkpoints_in_range() ==> next.checkpoints_in_range()
        },
{
}

/// Fee deposits keep each invariant.
pub proof fn lemma_deposit_keeps_invariants(pool: Pool, amount: u64)
    ensures
        deposit_outcome(pool, amount) matches Ok(next) ==> {
            &&& pool.conserved() ==> next.conserved()
            &&& pool.distinct_owners() ==> next.distinct_owners()
            &&& pool.checkpoints_in_range() ==> next.checkpoints_in_range()
        },
{
    if let Ok(next) = deposit_outcome(pool, amount) {
        if pool.checkpoints_in_range() {
            assert forall|i: int| 0 <= i < next.positions.len() implies (
            #[trigger] next.positions[i]).checkpoint <= next.fees by {
                assert(pool.positions[i].checkpoint <= pool.fees);
            }
        }
    }
}

/// Staking keeps each invariant.
pub proof fn lemma_stake_keeps_invariants(
    pool: Pool,
    owner: Seq<u8>,
    free: u64,
    amount: u64,
    slot: u64,
)
    ensures
        stake_outcome(pool, owner, free, amount, slot) matches Ok(next) ==> {
            &&& pool.conserved() ==> next.conserved()
            &&& pool.distinct_owners() ==> next.distinct_owners()
            &&& pool.checkpoints_in_range() ==> next.checkpoints_in_range()
        },
{
    if let Ok(next) = stake_outcome(pool, owner, free, amount, slot) {
        let before = pool.positions;
        if holds(before, owner) {
            lemma_holder_has_slot(before, owner);
            let i = slot_of(before, owner);
            lemma_total_update(before, i, next.positions[i]);
            if pool.distinct_owners() {
                assert forall|a: int, b: int| 0 <= a < b < next.positions.len() implies
                    #[trigger] next.positions[a].owner != #[trigger] next.positions[b].owner by {
                    assert(before[a].owner != before[b].owner);
                }
            }
            if pool.checkpoints_in_range() {
                assert forall|k: int| 0 <= k < next.positions.len() implies (
                #[trigger] next.positions[k]).checkpoint <= next.fees by {
                    if k != i {
                        assert(before[k].checkpoint <= pool.fees);
                    }
                }
            }
        } else {
            lemma_total_push(before, next.positions.last());
            if pool.distinct_owners() {
                assert forall|a: int, b: int| 0 <= a < b < next.positions.len() implies
                    #[trigger] next.positions[a].owner != #[trigger] next.positions[b].owner by {
                    if b < before.len() {
                        assert(before[a].owner != before[b].owner);
                    } else {
                        assert(before[a].owner != owner);
                    }
                }
            }
            if pool.checkpoints_in_range() {
                assert forall|k: int| 0 <= k < next.positions.len() implies (
                #[trigger] next.positions[k]).checkpoint <= next.fees by {
                    if k < before.len() {
                        assert(before[k].checkpoint <= pool.fees);
                    }
                }
            }
        }
    }
}

/// Unstaking keeps each invariant.
pub proof fn lemma_unstake_keeps_invariants(pool: Pool, owner: Seq<u8>, amount: u64)
    ensures
        unstake_outcome(pool, owner, amount) matches Ok(next) ==> {
            &&& pool.conserved() ==> next.conserved()
            &&& pool.distinct_owners() ==> next.distinct_owners()
            &&& pool.checkpoints_in_range() ==> next.checkpoints_in_range()
        },
{
    if let Ok(next) = unstake_outcome(pool, owner, amount) {
        let before = pool.positions;
        lemma_holder_has_slot(before, owner);
        let i = slot_of(before, owner);
        lemma_total_update(before, i, next.positions[i]);
        if pool.distinct_owners() {
            assert forall|a: int, b: int| 0 <= a < b < next.positions.len() implies
                #[trigger] next.positions[a].owner != #[trigger] next.positions[b].owner by {
                assert(before[a].owner != before[b].owner);
            }
        }
        if pool.checkpoints_in_range() {
            assert forall|k: int| 0 <= k < next.positions.len() implies (
            #[trigger] next.positions[k]).checkpoint <= next.fees by {
                assert(before[k].checkpoint <= pool.fees);
            }
        }
    }
}

/// Claims keep each invariant.
pub proof fn lemma_claim_keeps_invariants(pool: Pool, owner: Seq<u8>, custody: u64, balance: u64)
    ensures
        claim_outcome(pool, owner, custody, balance) matches Ok(next) ==> {
            &&& pool.conserved() ==> next.0.conserved()
            &&& pool.distinct_owners() ==> next.0.distinct_owners()
            &&& pool.checkpoints_in_range() ==> next.0.checkpoints_in_range()
        },
{
    if let Ok(next) = claim_outcome(pool, owner, custody, balance) {
        let before = pool.positions;
        if holds(before, owner) {
            lemma_holder_has_slot(before, owner);
            let i = slot_of(before, owner);
            lemma_total_update(before, i, next.0.positions[i]);
            if pool.distinct_owners() {
                assert forall|a: int, b: int| 0 <= a < b < next.0.positions.len() implies
                    #[trigger] next.0.positions[a].owner != #[trigger] next.0.positions[b].owner by {
                    assert(before[a].owner != before[b].owner);
                }
            }
            if pool.checkpoints_in_range() {
                assert forall|k: int| 0 <= k < next.0.positions.len() implies (
                #[trigger] next.0.positions[k]).checkpoint <= next.0.fees by {
                    if k != i {
                        assert(before[k].checkpoint <= pool.fees);
                    }
                }
            }
        }
    }
}

} // verus!
