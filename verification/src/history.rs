//! Histories of the ledger and the laws that hold of all of them.
//!
//! A history is any sequence of requests. Each request is applied with the
//! outcome function of its operation; a rejected request leaves the pool as
//! it was. The laws below are proved for every pool and every history.

use vstd::prelude::*;
use crate::fundraising::FundraisingErrors;
use crate::ledger::{
    claim_outcome, contribute_outcome, deposit_outcome, holds, lemma_claim_keeps_invariants,
    lemma_contribute_keeps_invariants, lemma_deposit_keeps_invariants, lemma_holder_has_slot,
    lemma_reward_share_bounds, lemma_slot_is_first, lemma_stake_keeps_invariants,
    lemma_total_covers, lemma_unstake_keeps_invariants, slot_of, stake_outcome, total_of,
    unstake_outcome, Pool, Position,
};

verus! {

/// A request to the ledger with its inputs.
pub enum Operation {
    Contribute { now: i64, amount: u64 },
    Deposit { amount: u64 },
    Stake { owner: Seq<u8>, free: u64, amount: u64, slot: u64 },
    Unstake { owner: Seq<u8>, amount: u64 },
    Claim { owner: Seq<u8>, custody: u64, balance: u64 },
}

/// The pool after `op`; the same pool when `op` is rejected.
pub open spec fn step(pool: Pool, op: Operation) -> Pool {
    match op {
        Operation::Contribute { now, amount } => match contribute_outcome(pool, now, amount) {
            Ok(next) => next,
            Err(_) => pool,
        },
        Operation::Deposit { amount } => match deposit_outcome(pool, amount) {
            Ok(next) => next,
            Err(_) => pool,
        },
        Operation::Stake { owner, free, amount, slot } => match stake_outcome(
            pool,
            owner,
            free,
            amount,
            slot,
        ) {
            Ok(next) => next,
            Err(_) => pool,
        },
        Operation::Unstake { owner, amount } => match unstake_outcome(pool, owner, amount) {
            Ok(next) => next,
            Err(_) => pool,
        },
        Operation::Claim { owner, custody, balance } => match claim_outcome(
            pool,
            owner,
            custody,
            balance,
        ) {
            Ok(next) => next.0,
            Err(_) => pool,
        },
    }
}

/// What `op` pays out of custody when applied to `pool`.
pub open spec fn reward_of(pool: Pool, op: Operation) -> nat {
    match op {
        Operation::Claim { owner, custody, balance } => match claim_outcome(
            pool,
            owner,
            custody,
            balance,
        ) {
            Ok(next) => next.1,
            Err(_) => 0,
        },
        _ => 0,
    }
}

/// The pool after the whole history `ops`.
pub open spec fn run(pool: Pool, ops: Seq<Operation>) -> Pool
    decreases ops.len(),
{
    if ops.len() == 0 {
        pool
    } else {
        step(run(pool, ops.drop_last()), ops.last())
    }
}

/// Everything paid out in the course of the history `ops`.
pub open spec fn paid(pool: Pool, ops: Seq<Operation>) -> nat
    decreases ops.len(),
{
    if ops.len() == 0 {
        0
    } else {
        paid(pool, ops.drop_last()) + reward_of(run(pool, ops.drop_last()), ops.last())
    }
}

/// Every position that holds a stake is settled against the fees collected
/// so far.
pub open spec fn settled(pool: Pool) -> bool {
    forall|i: int|
        0 <= i < pool.positions.len() && (#[trigger] pool.positions[i]).staked > 0
            ==> pool.positions[i].checkpoint == pool.fees
}

/// No unstake of the history takes anything out of custody: each one is
/// either rejected or for nothing.
pub open spec fn custody_only_grows(pool: Pool, ops: Seq<Operation>) -> bool {
    forall|k: int|
        0 <= k < ops.len() && #[trigger] ops[k] is Unstake ==> step(run(pool, ops.take(k)), ops[k])
            == run(pool, ops.take(k))
}

/// Conservation: whatever requests arrive, accepted or not, the stakes of
/// the positions add up to the total staked after every one of them.
pub proof fn law_conservation(pool: Pool, ops: Seq<Operation>)
    requires
        pool.conserved(),
    ensures
        run(pool, ops).conserved(),
        total_of(run(pool, ops).positions) == run(pool, ops).staked,
    decreases ops.len(),
{
    if ops.len() > 0 {
        law_conservation(pool, ops.drop_last());
        lemma_step_keeps_invariants(run(pool, ops.drop_last()), ops.last());
    }
}

/// The invariants of the ledger survive every history: one position per
/// participant, stakes that add up to the total, and no checkpoint beyond
/// the fees collected.
pub proof fn law_invariants(pool: Pool, ops: Seq<Operation>)
    requires
        pool.wf(),
    ensures
        run(pool, ops).wf(),
    decreases ops.len(),
{
    if ops.len() > 0 {
        law_invariants(pool, ops.drop_last());
        lemma_step_keeps_invariants(run(pool, ops.drop_last()), ops.last());
    }
}

/// Monotonicity: over any history the fees collected and the value raised
/// never decrease.
pub proof fn law_monotonicity(pool: Pool, ops: Seq<Operation>)
    ensures
        run(pool, ops).fees >= pool.fees,
        run(pool, ops).contributed >= pool.contributed,
    decreases ops.len(),
{
    if ops.len() > 0 {
        law_monotonicity(pool, ops.drop_last());
    }
}

/// No over-payment: start from a pool that meets the invariants and in
/// which every staked position is settled. Then the claims of all
/// participants together, over any history in which no unstake takes shares
/// out of custody, pay at most the fees collected during that history.
pub proof fn law_no_overpayment(pool: Pool, ops: Seq<Operation>)
    requires
        pool.wf(),
        settled(pool),
        custody_only_grows(pool, ops),
    ensures
        paid(pool, ops) <= run(pool, ops).fees - pool.fees,
{
    lemma_run_within(pool, ops);
}

/// A single claim never pays more than the fees collected since the
/// claimant's checkpoint, provided the claimant's stake is part of the
/// total.
pub proof fn law_claim_within_accrual(pool: Pool, owner: Seq<u8>, custody: u64, balance: u64)
    requires
        pool.conserved(),
    ensures
        claim_outcome(pool, owner, custody, balance) matches Ok(after) ==> after.1
            <= pool.unsettled_fees(owner),
        pool.accrued(owner) <= pool.unsettled_fees(owner),
        pool.accrued(owner) * pool.staked <= pool.unsettled_fees(owner) * match pool.position_of(
            owner,
        ) {
            Some(p) => p.staked,
            None => 0,
        },
{
    if holds(pool.positions, owner) {
        lemma_holder_has_slot(pool.positions, owner);
        let p = pool.positions[slot_of(pool.positions, owner)];
        lemma_total_covers(pool.positions, slot_of(pool.positions, owner));
        lemma_reward_share_bounds(pool.unsettled_fees(owner), p.staked, pool.staked);
    } else {
        assert(pool.accrued(owner) * pool.staked == 0) by (nonlinear_arith)
            requires
                pool.accrued(owner) == 0,
        ;
    }
}

/// A claim by a participant who has nothing staked is accepted and pays
/// nothing. It leaves the pool as it is when the participant has no
/// position, or has a position that is already settled against the fees
/// collected; in any case a second such claim changes nothing more.
pub proof fn law_claim_without_stake(
    pool: Pool,
    owner: Seq<u8>,
    custody: u64,
    balance: u64,
    next_custody: u64,
    next_balance: u64,
)
    requires
        pool.position_of(owner) matches Some(p) ==> p.staked == 0 && p.checkpoint <= pool.fees,
    ensures
        claim_outcome(pool, owner, custody, balance) matches Ok(after) && {
            &&& after.1 == 0
            &&& pool.position_of(owner) is None ==> after.0 == pool
            &&& (pool.position_of(owner) matches Some(p) && p.checkpoint == pool.fees) ==> after.0
                == pool
            &&& claim_outcome(after.0, owner, next_custody, next_balance) == Ok::<
                (Pool, nat),
                FundraisingErrors,
            >((after.0, 0nat))
        },
{
    if holds(pool.positions, owner) {
        lemma_holder_has_slot(pool.positions, owner);
        let i = slot_of(pool.positions, owner);
        let p = pool.positions[i];
        lemma_reward_share_bounds(pool.unsettled_fees(owner), p.staked, pool.staked);
        let after = claim_outcome(pool, owner, custody, balance).unwrap();
        if p.checkpoint == pool.fees {
            assert(after.0.positions =~= pool.positions);
        }
        lemma_claim_again(pool, owner, custody, balance, next_custody, next_balance);
    }
}

/// Checkpoint advance: right after an accepted claim, a second claim by the
/// same participant is accepted, pays exactly nothing and leaves the pool
/// as it is.
pub proof fn law_checkpoint_advance(
    pool: Pool,
    owner: Seq<u8>,
    custody: u64,
    balance: u64,
    next_custody: u64,
    next_balance: u64,
)
    requires
        claim_outcome(pool, owner, custody, balance) is Ok,
    ensures
        claim_outcome(pool, owner, custody, balance) matches Ok(after) && {
            &&& after.0.accrued(owner) == 0
            &&& claim_outcome(after.0, owner, next_custody, next_balance) == Ok::<
                (Pool, nat),
                FundraisingErrors,
            >((after.0, 0nat))
        },
{
    lemma_claim_again(pool, owner, custody, balance, next_custody, next_balance);
}

proof fn lemma_claim_again(
    pool: Pool,
    owner: Seq<u8>,
    custody: u64,
    balance: u64,
    next_custody: u64,
    next_balance: u64,
)
    requires
        claim_outcome(pool, owner, custody, balance) is Ok,
    ensures
        claim_outcome(pool, owner, custody, balance) matches Ok(after) && {
            &&& after.0.accrued(owner) == 0
            &&& claim_outcome(after.0, owner, next_custody, next_balance) == Ok::<
                (Pool, nat),
                FundraisingErrors,
            >((after.0, 0nat))
        },
{
    let after = claim_outcome(pool, owner, custody, balance).unwrap();
    if holds(pool.positions, owner) {
        lemma_holder_has_slot(pool.positions, owner);
        let i = slot_of(pool.positions, owner);
        let next = after.0;
        assert(next.positions[i].owner == owner);
        assert forall|j: int| 0 <= j < i implies #[trigger] next.positions[j].owner != owner by {
            assert(pool.positions[j].owner != owner);
        }
        lemma_slot_is_first(next.positions, owner, i);
        let p = next.positions[i];
        lemma_reward_share_bounds(0, p.staked, next.staked);
        let again = claim_outcome(next, owner, next_custody, next_balance).unwrap();
        assert(again.0.positions =~= next.positions);
    }
}

/// One request keeps each invariant of the ledger.
pub proof fn lemma_step_keeps_invariants(pool: Pool, op: Operation)
    ensures
        pool.conserved() ==> step(pool, op).conserved(),
        pool.distinct_owners() ==> step(pool, op).distinct_owners(),
        pool.checkpoints_in_range() ==> step(pool, op).checkpoints_in_range(),
        step(pool, op).fees >= pool.fees,
        step(pool, op).contributed >= pool.contributed,
{
    match op {
        Operation::Contribute { now, amount } => {
            lemma_contribute_keeps_invariants(pool, now, amount);
        },
        Operation::Deposit { amount } => {
            lemma_deposit_keeps_invariants(pool, amount);
        },
        Operation::Stake { owner, free, amount, slot } => {
            lemma_stake_keeps_invariants(pool, owner, free, amount, slot);
        },
        Operation::Unstake { owner, amount } => {
            lemma_unstake_keeps_invariants(pool, owner, amount);
        },
        Operation::Claim { owner, custody, balance } => {
            lemma_claim_keeps_invariants(pool, owner, custody, balance);
        },
    }
}

/// Fees not yet claimed, weighted by stake: the sum over all positions of
/// the fees collected since the checkpoint times the stake.
spec fn pending(positions: Seq<Position>, fees: nat) -> int
    decreases positions.len(),
{
    if positions.len() == 0 {
        0
    } else {
        pending(positions.drop_last(), fees) + (fees - positions.last().checkpoint)
            * positions.last().staked
    }
}

/// What holds between the fees collected since `base` and what was `paid`
/// since then.
spec fn within(pool: Pool, base: nat, paid: nat) -> bool {
    &&& pool.wf()
    &&& base <= pool.fees
    &&& forall|i: int|
        0 <= i < pool.positions.len() && (#[trigger] pool.positions[i]).staked > 0
            ==> pool.positions[i].checkpoint >= base
    &&& paid <= pool.fees - base
    &&& paid * pool.staked + pending(pool.positions, pool.fees) <= (pool.fees - base)
        * pool.staked
}

proof fn lemma_pending_push(positions: Seq<Position>, p: Position, fees: nat)
    ensures
        pending(positions.push(p), fees) == pending(positions, fees) + (fees - p.checkpoint)
            * p.staked,
{
    assert(positions.push(p).drop_last() =~= positions);
}

proof fn lemma_pending_update(positions: Seq<Position>, i: int, p: Position, fees: nat)
    requires
        0 <= i < positions.len(),
    ensures
        pending(positions.update(i, p), fees) == pending(positions, fees) - (fees
            - positions[i].checkpoint) * positions[i].staked + (fees - p.checkpoint) * p.staked,
    decreases positions.len(),
{
    let after = positions.update(i, p);
    if i == positions.len() - 1 {
        assert(after.drop_last() =~= positions.drop_last());
    } else {
        lemma_pending_update(positions.drop_last(), i, p, fees);
        assert(after.drop_last() =~= positions.drop_last().update(i, p));
    }
}

proof fn lemma_pending_shift(positions: Seq<Position>, fees: nat, more: nat)
    ensures
        pending(positions, fees + more) == pending(positions, fees) + more * total_of(positions),
    decreases positions.len(),
{
    if positions.len() > 0 {
        let front = positions.drop_last();
        let p = positions.last();
        lemma_pending_shift(front, fees, more);
        assert((fees + more - p.checkpoint) * p.staked == (fees - p.checkpoint) * p.staked + more
            * p.staked) by (nonlinear_arith);
        assert(more * (total_of(front) + p.staked) == more * total_of(front) + more * p.staked)
            by (nonlinear_arith);
    } else {
        assert(more * 0 == 0) by (nonlinear_arith);
    }
}

proof fn lemma_pending_nonnegative(positions: Seq<Position>, fees: nat)
    requires
        forall|i: int| 0 <= i < positions.len() ==> (#[trigger] positions[i]).checkpoint <= fees,
    ensures
        pending(positions, fees) >= 0,
    decreases positions.len(),
{
    if positions.len() > 0 {
        let front = positions.drop_last();
        let p = positions.last();
        assert forall|i: int| 0 <= i < front.len() implies (#[trigger] front[i]).checkpoint
            <= fees by {
            assert(positions[i].checkpoint <= fees);
        }
        lemma_pending_nonnegative(front, fees);
        assert((fees - p.checkpoint) * p.staked >= 0) by (nonlinear_arith)
            requires
                fees >= p.checkpoint,
                p.staked >= 0,
        ;
    }
}

proof fn lemma_pending_settled(positions: Seq<Position>, fees: nat)
    requires
        forall|i: int|
            0 <= i < positions.len() && (#[trigger] positions[i]).staked > 0
                ==> positions[i].checkpoint == fees,
    ensures
        pending(positions, fees) == 0,
    decreases positions.len(),
{
    if positions.len() > 0 {
        let front = positions.drop_last();
        let p = positions.last();
        assert forall|i: int| 0 <= i < front.len() && (#[trigger] front[i]).staked > 0 implies
            front[i].checkpoint == fees by {
            assert(positions[i].staked > 0);
        }
        lemma_pending_settled(front, fees);
        assert((fees - p.checkpoint) * p.staked == 0) by (nonlinear_arith)
            requires
                p.staked == 0 || fees == p.checkpoint,
        ;
    }
}

proof fn lemma_deposit_within(pool: Pool, base: nat, paid: nat, amount: u64)
    requires
        within(pool, base, paid),
    ensures
        within(step(pool, Operation::Deposit { amount }), base, paid),
{
    let op = Operation::Deposit { amount };
    lemma_step_keeps_invariants(pool, op);
    let next = step(pool, op);
    if deposit_outcome(pool, amount) is Ok {
        let more = amount as nat;
        lemma_pending_shift(pool.positions, pool.fees, more);
        assert forall|i: int|
            0 <= i < next.positions.len() && (#[trigger] next.positions[i]).staked
                > 0 implies next.positions[i].checkpoint >= base by {
            assert(pool.positions[i].staked > 0);
        }
        assert((pool.fees + more - base) * pool.staked == (pool.fees - base) * pool.staked + more
            * pool.staked) by (nonlinear_arith);
    }
}

proof fn lemma_stake_within(
    pool: Pool,
    base: nat,
    paid: nat,
    owner: Seq<u8>,
    free: u64,
    amount: u64,
    slot: u64,
)
    requires
        within(pool, base, paid),
    ensures
        within(step(pool, Operation::Stake { owner, free, amount, slot }), base, paid),
{
    let op = Operation::Stake { owner, free, amount, slot };
    lemma_step_keeps_invariants(pool, op);
    let next = step(pool, op);
    if stake_outcome(pool, owner, free, amount, slot) is Ok {
        let before = pool.positions;
        let more = amount as nat;
        let room = (pool.fees - base) as nat;
        if holds(before, owner) {
            lemma_holder_has_slot(before, owner);
            let i = slot_of(before, owner);
            lemma_pending_update(before, i, next.positions[i], pool.fees);
            assert(before[i].checkpoint <= pool.fees);
            assert((pool.fees - before[i].checkpoint) * before[i].staked >= 0)
                by (nonlinear_arith)
                requires
                    pool.fees >= before[i].checkpoint,
                    before[i].staked >= 0,
            ;
            assert((pool.fees - pool.fees) * next.positions[i].staked == 0) by (nonlinear_arith);
            assert forall|k: int|
                0 <= k < next.positions.len() && (#[trigger] next.positions[k]).staked
                    > 0 implies next.positions[k].checkpoint >= base by {
                if k != i {
                    assert(before[k].staked > 0);
                }
            }
        } else {
            lemma_pending_push(before, next.positions.last(), pool.fees);
            assert((pool.fees - pool.fees) * next.positions.last().staked == 0)
                by (nonlinear_arith);
            assert forall|k: int|
                0 <= k < next.positions.len() && (#[trigger] next.positions[k]).staked
                    > 0 implies next.positions[k].checkpoint >= base by {
                if k < before.len() {
                    assert(before[k].staked > 0);
                }
            }
        }
        assert(pending(next.positions, next.fees) <= pending(before, pool.fees));
        assert(paid * (pool.staked + more) == paid * pool.staked + paid * more)
            by (nonlinear_arith);
        assert(room * (pool.staked + more) == room * pool.staked + room * more)
            by (nonlinear_arith);
        assert(paid * more <= room * more) by (nonlinear_arith)
            requires
                paid <= room,
                more >= 0,
        ;
    }
}

proof fn lemma_claim_within(
    pool: Pool,
    base: nat,
    paid: nat,
    owner: Seq<u8>,
    custody: u64,
    balance: u64,
)
    requires
        within(pool, base, paid),
    ensures
        within(
            step(pool, Operation::Claim { owner, custody, balance }),
            base,
            paid + reward_of(pool, Operation::Claim { owner, custody, balance }),
        ),
{
    let op = Operation::Claim { owner, custody, balance };
    lemma_step_keeps_invariants(pool, op);
    let next = step(pool, op);
    let reward = reward_of(pool, op);
    if claim_outcome(pool, owner, custody, balance) is Ok && holds(pool.positions, owner) {
        let before = pool.positions;
        lemma_holder_has_slot(before, owner);
        let i = slot_of(before, owner);
        let p = before[i];
        let delta = (pool.fees - p.checkpoint) as nat;
        let room = (pool.fees - base) as nat;
        assert(p.checkpoint <= pool.fees);
        lemma_reward_share_bounds(delta, p.staked, pool.staked);
        lemma_pending_update(before, i, next.positions[i], pool.fees);
        assert((pool.fees - pool.fees) * next.positions[i].staked == 0) by (nonlinear_arith);
        assert forall|k: int|
            0 <= k < next.positions.len() && (#[trigger] next.positions[k]).staked
                > 0 implies next.positions[k].checkpoint >= base by {
            if k != i {
                assert(before[k].staked > 0);
            }
        }
        assert(pending(next.positions, next.fees) == pending(before, pool.fees) - delta
            * p.staked);
        assert((paid + reward) * pool.staked == paid * pool.staked + reward * pool.staked)
            by (nonlinear_arith);
        lemma_pending_nonnegative(next.positions, next.fees);
        if pool.staked > 0 {
            assert(paid + reward <= room) by (nonlinear_arith)
                requires
                    (paid + reward) * pool.staked <= room * pool.staked,
                    pool.staked > 0,
            ;
        }
    }
}

proof fn lemma_step_within(pool: Pool, base: nat, paid: nat, op: Operation)
    requires
        within(pool, base, paid),
        op is Unstake ==> step(pool, op) == pool,
    ensures
        within(step(pool, op), base, paid + reward_of(pool, op)),
{
    match op {
        Operation::Contribute { now, amount } => {
            lemma_step_keeps_invariants(pool, op);
        },
        Operation::Deposit { amount } => {
            lemma_deposit_within(pool, base, paid, amount);
        },
        Operation::Stake { owner, free, amount, slot } => {
            lemma_stake_within(pool, base, paid, owner, free, amount, slot);
        },
        Operation::Unstake { owner, amount } => {},
        Operation::Claim { owner, custody, balance } => {
            lemma_claim_within(pool, base, paid, owner, custody, balance);
        },
    }
}

proof fn lemma_run_within(pool: Pool, ops: Seq<Operation>)
    requires
        pool.wf(),
        settled(pool),
        custody_only_grows(pool, ops),
    ensures
        within(run(pool, ops), pool.fees, paid(pool, ops)),
    decreases ops.len(),
{
    if ops.len() == 0 {
        lemma_pending_settled(pool.positions, pool.fees);
        assert(0 * pool.staked == 0) by (nonlinear_arith);
    } else {
        let front = ops.drop_last();
        assert forall|k: int| 0 <= k < front.len() && #[trigger] front[k] is Unstake implies step(
            run(pool, front.take(k)),
            front[k],
        ) == run(pool, front.take(k)) by {
            assert(front.take(k) =~= ops.take(k));
            assert(ops[k] is Unstake);
        }
        lemma_run_within(pool, front);
        if ops.last() is Unstake {
            assert(ops.take(ops.len() - 1) =~= front);
            assert(ops[ops.len() - 1] is Unstake);
        }
        lemma_step_within(run(pool, front), pool.fees, paid(pool, front), ops.last());
    }
}

} // verus!
