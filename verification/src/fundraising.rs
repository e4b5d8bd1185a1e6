//! The fundraising pool and its stake-weighted fee distribution.
//!
//! Every operation takes the pool by mutable reference together with plain
//! values and either applies its whole effect or rejects the request and
//! leaves the pool as it was. What each operation does is stated against the
//! model in [`crate::ledger`].

use vstd::prelude::*;
use crate::address::Address;
use crate::ledger::{
    claim_outcome, contribute_outcome, deposit_outcome, holds, is_slot_of,
    lemma_claim_keeps_invariants, lemma_deposit_keeps_invariants, lemma_opened_is_wf,
    lemma_reward_share_bounds, lemma_slot_is_first, lemma_stake_keeps_invariants,
    lemma_total_covers, lemma_total_take_bounded, lemma_total_take_next,
    lemma_unstake_keeps_invariants, opened, reward_share, slot_of, stake_outcome, total_of,
    unstake_outcome, Pool, Position,
};

verus! {

/// Length of the funding window in seconds: seven days.
pub const FUNDING_PERIOD: i64 = 604_800;

/// Why the ledger rejected an operation.
#[derive(Clone, Copy, Debug, PartialEq, Eq, Structural)]
pub enum FundraisingErrors {
    /// A contribution arrived after the funding window had closed.
    FundingClosed,
    /// An unstake asked for more than the position holds.
    InsufficientStake,
    /// A stake asked for more than the participant's free shares.
    InsufficientFreeBalance,
    /// A counter or balance would have passed its upper limit.
    ArithmeticOverflow,
    /// A counter or balance would have dropped below zero.
    ArithmeticUnderflow,
}

/// The stake position of one participant.
#[derive(Clone, Copy, Debug)]
pub struct UserAccount {
    pub key: Address,
    pub amount_staked: u64,
    /// Total fees collected by the pool when this position was last settled.
    pub total_fees_when_last_claimed: u64,
    /// Slot at which the position was last staked into.
    pub last_claimed_fees_slot: u64,
}

impl View for UserAccount {
    type V = Position;

    open spec fn view(&self) -> Position {
        Position {
            owner: self.key@,
            staked: self.amount_staked as nat,
            checkpoint: self.total_fees_when_last_claimed as nat,
            mark: self.last_claimed_fees_slot as nat,
        }
    }
}

/// The pool: funding window, counters and the positions of all stakers.
#[derive(Clone, Debug)]
pub struct FundraisingAccount {
    pub start_time: i64,
    pub end_time: i64,
    pub total_funds_raised: u64,
    pub token_mint: Address,
    pub total_fees_collected: u64,
    pub total_staked: u64,
    pub user_staking_info: Vec<UserAccount>,
}

/// The positions that a list of records stands for.
pub open spec fn positions_view(records: Seq<UserAccount>) -> Seq<Position> {
    Seq::new(records.len(), |i: int| records[i]@)
}

impl View for FundraisingAccount {
    type V = Pool;

    open spec fn view(&self) -> Pool {
        Pool {
            window_start: self.start_time as int,
            window_end: self.end_time as int,
            contributed: self.total_funds_raised as nat,
            fees: self.total_fees_collected as nat,
            staked: self.total_staked as nat,
            share_asset: self.token_mint@,
            positions: positions_view(self.user_staking_info@),
        }
    }
}

/// What a claim has paid, and the two balances after the payment.
#[derive(Clone, Copy, Debug, PartialEq, Eq, Structural)]
pub struct Payout {
    /// Value paid to the claimant.
    pub reward: u64,
    /// What is left in pool custody.
    pub custody: u64,
    /// What the claimant's balance holds now.
    pub balance: u64,
}

/// Index of the first record that belongs to `key`.
fn find_position(records: &Vec<UserAccount>, key: &Address) -> (found: Option<usize>)
    ensures
        match found {
            Some(i) => is_slot_of(positions_view(records@), key@, i as int),
            None => !holds(positions_view(records@), key@),
        },
{
    let ghost positions = positions_view(records@);
    let mut i: usize = 0;
    while i < records.len()
        invariant
            i <= records.len(),
            positions == positions_view(records@),
            forall|j: int| 0 <= j < i ==> #[trigger] positions[j].owner != key@,
        decreases records.len() - i,
    {
        if records[i].key == *key {
            assert(positions[i as int].owner == key@);
            return Some(i);
        }
        i += 1;
    }
    None
}

impl FundraisingAccount {
    /// The record of the position of `owner`, if there is one.
    pub fn position(&self, owner: &Address) -> (found: Option<UserAccount>)
        ensures
            match found {
                Some(record) => {
                    &&& self@.position_of(owner@) == Some(record@)
                    &&& record == self.user_staking_info@[slot_of(self@.positions, owner@)]
                },
                None => self@.position_of(owner@) is None,
            },
    {
        match find_position(&self.user_staking_info, owner) {
            Some(i) => {
                proof {
                    lemma_slot_is_first(self@.positions, owner@, i as int);
                }
                Some(self.user_staking_info[i])
            },
            None => None,
        }
    }

    /// Checks the invariants of the ledger: one position for each owner,
    /// stakes that add up to the total staked, and no checkpoint beyond the
    /// fees collected.
    pub fn audit(&self) -> (sound: bool)
        ensures
            sound == self@.wf(),
    {
        let ghost positions = self@.positions;
        let mut sum: u64 = 0;
        let mut i: usize = 0;
        while i < self.user_staking_info.len()
            invariant
                i <= self.user_staking_info.len(),
                positions == self@.positions,
                positions.len() == self.user_staking_info.len(),
                sum == total_of(positions.take(i as int)),
                forall|a: int, b: int|
                    0 <= a < b < i ==> #[trigger] positions[a].owner != #[trigger] positions[b].owner,
                forall|k: int| 0 <= k < i ==> (#[trigger] positions[k]).checkpoint <= self@.fees,
            decreases self.user_staking_info.len() - i,
        {
            let record = self.user_staking_info[i];
            assert(positions[i as int] == record@);
            match find_position(&self.user_staking_info, &record.key) {
                Some(first) => {
                    if first != i {
                        assert(positions[first as int].owner == positions[i as int].owner);
                        return false;
                    }
                },
                None => {
                    assert(positions[i as int].owner == record.key@);
                    return false;
                },
            }
            if record.total_fees_when_last_claimed > self.total_fees_collected {
                return false;
            }
            proof {
                lemma_total_take_next(positions, i as int);
                lemma_total_take_bounded(positions, i + 1);
            }
            sum = match sum.checked_add(record.amount_staked) {
                Some(sum) => sum,
                None => {
                    return false;
                },
            };
            i += 1;
        }
        assert(positions.take(i as int) =~= positions);
        sum == self.total_staked
    }
}

/// The share of `delta` fees that `staked` out of `total` shares earns,
/// rounded down, provided it fits in 64 bits.
pub fn reward_for(delta: u64, staked: u64, total: u64) -> (reward: Option<u64>)
    ensures
        match reward {
            Some(r) => r == reward_share(delta as nat, staked as nat, total as nat),
            None => reward_share(delta as nat, staked as nat, total as nat) > u64::MAX,
        },
        staked <= total ==> reward is Some,
{
    proof {
        lemma_reward_share_bounds(delta as nat, staked as nat, total as nat);
    }
    if total == 0 {
        return Some(0);
    }
    assert(delta * staked <= u128::MAX) by (nonlinear_arith)
        requires
            delta <= u64::MAX,
            staked <= u64::MAX,
    ;
    let product: u128 = (delta as u128) * (staked as u128);
    let share: u128 = product / (total as u128);
    if share > u64::MAX as u128 {
        None
    } else {
        Some(share as u64)
    }
}

/// Opens the pool at time `now` for the share asset `token_mint`.
///
/// The funding window runs from `now` for [`FUNDING_PERIOD`] seconds; nothing
/// is raised, collected or staked yet. Fails with `ArithmeticOverflow` when
/// the end of the window does not fit the clock.
pub fn start_fundraising(now: i64, token_mint: Address) -> (result: Result<
    FundraisingAccount,
    FundraisingErrors,
>)
    ensures
        match result {
            Ok(account) => {
                &&& now + FUNDING_PERIOD <= i64::MAX
                &&& account@ == opened(now, FUNDING_PERIOD, token_mint@)
                &&& account.token_mint == token_mint
                &&& account@.wf()
            },
            Err(e) => e == FundraisingErrors::ArithmeticOverflow && now + FUNDING_PERIOD
                > i64::MAX,
        },
{
    match now.checked_add(FUNDING_PERIOD) {
        Some(end_time) => {
            let account = FundraisingAccount {
                start_time: now,
                end_time,
                total_funds_raised: 0,
                token_mint,
                total_fees_collected: 0,
                total_staked: 0,
                user_staking_info: Vec::new(),
            };
            proof {
                lemma_opened_is_wf(now, FUNDING_PERIOD, token_mint@);
                assert(account@.positions =~= Seq::<Position>::empty());
            }
            Ok(account)
        },
        None => Err(FundraisingErrors::ArithmeticOverflow),
    }
}

/// Records a contribution of `amount` made at time `now` and returns the
/// number of shares to mint to the contributor's free balance: one per unit
/// contributed.
///
/// Fails with `FundingClosed` after the end of the funding window and with
/// `ArithmeticOverflow` when the amount raised would pass its limit. No
/// position and no stake is touched.
pub fn contribute(account: &mut FundraisingAccount, now: i64, amount: u64) -> (result: Result<
    u64,
    FundraisingErrors,
>)
    ensures
        match result {
            Ok(minted) => {
                &&& minted == amount
                &&& contribute_outcome(old(account)@, now, amount) == Ok::<
                    Pool,
                    FundraisingErrors,
                >(final(account)@)
                &&& final(account).user_staking_info == old(account).user_staking_info
            },
            Err(e) => {
                &&& contribute_outcome(old(account)@, now, amount) == Err::<
                    Pool,
                    FundraisingErrors,
                >(e)
                &&& *final(account) == *old(account)
            },
        },
        old(account)@.wf() ==> final(account)@.wf(),
        final(account).total_funds_raised >= old(account).total_funds_raised,
        final(account).total_fees_collected == old(account).total_fees_collected,
        final(account).total_staked == old(account).total_staked,
{
    if now > account.end_time {
        return Err(FundraisingErrors::FundingClosed);
    }
    match account.total_funds_raised.checked_add(amount) {
        Some(raised) => {
            account.total_funds_raised = raised;
            Ok(amount)
        },
        None => Err(FundraisingErrors::ArithmeticOverflow),
    }
}

/// Adds `amount` to the fees collected by the pool.
///
/// Fails with `ArithmeticOverflow`, changing nothing, when the counter
/// would pass its limit.
pub fn deposit_fee(account: &mut FundraisingAccount, amount: u64) -> (result: Result<
    (),
    FundraisingErrors,
>)
    ensures
        match result {
            Ok(()) => {
                &&& deposit_outcome(old(account)@, amount) == Ok::<Pool, FundraisingErrors>(
                    final(account)@,
                )
                &&& final(account).user_staking_info == old(account).user_staking_info
            },
            Err(e) => {
                &&& deposit_outcome(old(account)@, amount) == Err::<Pool, FundraisingErrors>(e)
                &&& *final(account) == *old(account)
            },
        },
        old(account)@.wf() ==> final(account)@.wf(),
        final(account).total_fees_collected >= old(account).total_fees_collected,
        final(account).total_funds_raised == old(account).total_funds_raised,
        final(account).total_staked == old(account).total_staked,
{
    match account.total_fees_collected.checked_add(amount) {
        Some(fees) => {
            proof {
                lemma_deposit_keeps_invariants(account@, amount);
            }
            account.total_fees_collected = fees;
            Ok(())
        },
        None => Err(FundraisingErrors::ArithmeticOverflow),
    }
}

/// Moves `amount` of the `free_shares` that `sender` holds into pool custody
/// at slot `slot`.
///
/// The sender's position is created if there is none. Its checkpoint is set
/// to the fees collected so far, so rewards accrued on an earlier stake and
/// not yet claimed are forfeited. Fails with `InsufficientFreeBalance` when
/// `amount` exceeds `free_shares` and with `ArithmeticOverflow` when the
/// position or the total would pass its limit.
pub fn stake_and_claim(
    account: &mut FundraisingAccount,
    sender: Address,
    free_shares: u64,
    amount: u64,
    slot: u64,
) -> (result: Result<(), FundraisingErrors>)
    ensures
        match result {
            Ok(()) => stake_outcome(old(account)@, sender@, free_shares, amount, slot) == Ok::<
                Pool,
                FundraisingErrors,
            >(final(account)@),
            Err(e) => {
                &&& stake_outcome(old(account)@, sender@, free_shares, amount, slot) == Err::<
                    Pool,
                    FundraisingErrors,
                >(e)
                &&& *final(account) == *old(account)
            },
        },
        old(account)@.wf() ==> final(account)@.wf(),
        final(account).total_funds_raised == old(account).total_funds_raised,
        final(account).total_fees_collected == old(account).total_fees_collected,
{
    if amount > free_shares {
        return Err(FundraisingErrors::InsufficientFreeBalance);
    }
    let total = match account.total_staked.checked_add(amount) {
        Some(total) => total,
        None => {
            return Err(FundraisingErrors::ArithmeticOverflow);
        },
    };
    let ghost before = account@;
    proof {
        lemma_stake_keeps_invariants(before, sender@, free_shares, amount, slot);
    }
    match find_position(&account.user_staking_info, &sender) {
        Some(i) => {
            proof {
                lemma_slot_is_first(before.positions, sender@, i as int);
            }
            let current = account.user_staking_info[i];
            let staked = match current.amount_staked.checked_add(amount) {
                Some(staked) => staked,
                None => {
                    return Err(FundraisingErrors::ArithmeticOverflow);
                },
            };
            let settled = UserAccount {
                key: current.key,
                amount_staked: staked,
                total_fees_when_last_claimed: account.total_fees_collected,
                last_claimed_fees_slot: slot,
            };
            account.user_staking_info.set(i, settled);
            account.total_staked = total;
            proof {
                assert(account@.positions =~= before.positions.update(i as int, settled@));
            }
        },
        None => {
            let fresh = UserAccount {
                key: sender,
                amount_staked: amount,
                total_fees_when_last_claimed: account.total_fees_collected,
                last_claimed_fees_slot: slot,
            };
            account.user_staking_info.push(fresh);
            account.total_staked = total;
            proof {
                assert(account@.positions =~= before.positions.push(fresh@));
            }
        },
    }
    Ok(())
}

/// Returns `amount` staked shares of `recipient` from pool custody.
///
/// Fails with `InsufficientStake` when `recipient` has no position or has
/// staked less than `amount`. The position is kept, also at zero, and its
/// checkpoint is not touched.
pub fn unstake(account: &mut FundraisingAccount, recipient: Address, amount: u64) -> (result:
    Result<(), FundraisingErrors>)
    ensures
        match result {
            Ok(()) => unstake_outcome(old(account)@, recipient@, amount) == Ok::<
                Pool,
                FundraisingErrors,
            >(final(account)@),
            Err(e) => {
                &&& unstake_outcome(old(account)@, recipient@, amount) == Err::<
                    Pool,
                    FundraisingErrors,
                >(e)
                &&& *final(account) == *old(account)
            },
        },
        old(account)@.wf() ==> final(account)@.wf(),
        old(account)@.wf() ==> result != Err::<(), FundraisingErrors>(
            FundraisingErrors::ArithmeticUnderflow,
        ),
        final(account).total_funds_raised == old(account).total_funds_raised,
        final(account).total_fees_collected == old(account).total_fees_collected,
{
    let ghost before = account@;
    proof {
        lemma_unstake_keeps_invariants(before, recipient@, amount);
    }
    let i = match find_position(&account.user_staking_info, &recipient) {
        Some(i) => i,
        None => {
            return Err(FundraisingErrors::InsufficientStake);
        },
    };
    proof {
        lemma_slot_is_first(before.positions, recipient@, i as int);
        if before.wf() {
            lemma_total_covers(before.positions, i as int);
        }
    }
    let current = account.user_staking_info[i];
    if current.amount_staked < amount {
        return Err(FundraisingErrors::InsufficientStake);
    }
    if account.total_staked < amount {
        return Err(FundraisingErrors::ArithmeticUnderflow);
    }
    let reduced = UserAccount {
        key: current.key,
        amount_staked: current.amount_staked - amount,
        total_fees_when_last_claimed: current.total_fees_when_last_claimed,
        last_claimed_fees_slot: current.last_claimed_fees_slot,
    };
    account.user_staking_info.set(i, reduced);
    account.total_staked = account.total_staked - amount;
    proof {
        assert(account@.positions =~= before.positions.update(i as int, reduced@));
    }
    Ok(())
}

/// Pays `user` the fees accrued on their stake since their checkpoint, out
/// of a custody holding `custody` into a balance holding `balance`.
///
/// A user without a position is paid nothing and nothing changes. Otherwise
/// the reward is `staked * (fees collected - checkpoint) / total staked`,
/// rounded down, and zero while nothing is staked at all; the checkpoint
/// then moves up to the fees collected, so the same fees are never paid
/// twice. Nothing but that checkpoint changes in the pool.
///
/// Fails, changing nothing, with `ArithmeticUnderflow` when custody cannot
/// cover the reward and with `ArithmeticOverflow` when the balance cannot
/// hold it.
pub fn claim_rewards(account: &mut FundraisingAccount, user: Address, custody: u64, balance: u64)
    -> (result: Result<Payout, FundraisingErrors>)
    ensures
        match result {
            Ok(payout) => {
                &&& claim_outcome(old(account)@, user@, custody, balance) == Ok::<
                    (Pool, nat),
                    FundraisingErrors,
                >((final(account)@, payout.reward as nat))
                &&& payout.custody == custody - payout.reward
                &&& payout.balance == balance + payout.reward
            },
            Err(e) => {
                &&& claim_outcome(old(account)@, user@, custody, balance) == Err::<
                    (Pool, nat),
                    FundraisingErrors,
                >(e)
                &&& *final(account) == *old(account)
            },
        },
        old(account)@.wf() ==> final(account)@.wf(),
        old(account)@.wf() ==> (result matches Ok(payout) ==> payout.reward <= old(
            account,
        )@.unsettled_fees(user@)),
        final(account).total_funds_raised == old(account).total_funds_raised,
        final(account).total_fees_collected == old(account).total_fees_collected,
        final(account).total_staked == old(account).total_staked,
{
    let ghost before = account@;
    proof {
        lemma_claim_keeps_invariants(before, user@, custody, balance);
    }
    let i = match find_position(&account.user_staking_info, &user) {
        Some(i) => i,
        None => {
            return Ok(Payout { reward: 0, custody, balance });
        },
    };
    proof {
        lemma_slot_is_first(before.positions, user@, i as int);
        if before.wf() {
            lemma_total_covers(before.positions, i as int);
        }
    }
    let current = account.user_staking_info[i];
    if account.total_fees_collected < current.total_fees_when_last_claimed {
        return Err(FundraisingErrors::ArithmeticUnderflow);
    }
    let delta = account.total_fees_collected - current.total_fees_when_last_claimed;
    let reward = match reward_for(delta, current.amount_staked, account.total_staked) {
        Some(reward) => reward,
        None => {
            return Err(FundraisingErrors::ArithmeticOverflow);
        },
    };
    proof {
        lemma_reward_share_bounds(
            delta as nat,
            current.amount_staked as nat,
            account.total_staked as nat,
        );
    }
    if reward > custody {
        return Err(FundraisingErrors::ArithmeticUnderflow);
    }
    let credited = match balance.checked_add(reward) {
        Some(credited) => credited,
        None => {
            return Err(FundraisingErrors::ArithmeticOverflow);
        },
    };
    let settled = UserAccount {
        key: current.key,
        amount_staked: current.amount_staked,
        total_fees_when_last_claimed: account.total_fees_collected,
        last_claimed_fees_slot: current.last_claimed_fees_slot,
    };
    account.user_staking_info.set(i, settled);
    proof {
        assert(account@.positions =~= before.positions.update(i as int, settled@));
    }
    Ok(Payout { reward, custody: custody - reward, balance: credited })
}

} // verus!
