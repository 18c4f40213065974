//! What happens to the stakes when a challenge is resolved.
//!
//! Every stake of the losing side is released and then slashed by the configured share; what
//! was slashed forms the rewards pool. Every stake of the winning side is released, and the
//! pool is shared out among the winners in proportion to their stakes. The division leaves a
//! remainder, and a credit fails where the ledger does not know the account: both stay in the
//! pool, and the last winner is credited with all that is left of it.

use crate::application::{
    copy_stakes, lemma_stake_pushed, lemma_stake_sum_grows, stake_sum, Application,
    ApplicationView, Stake,
};
use crate::ledger::{Ledger, LedgerView};
use crate::permille::Permille;
use crate::types::{AccountId, Balance};
use vstd::arithmetic::div_mod::lemma_fundamental_div_mod;
use vstd::prelude::*;

verus! {

/// A ledger together with an amount that was moved on it.
pub struct Moved {
    pub ledger: LedgerView,
    pub amount: nat,
}

/// The part of a stake that is slashed.
pub open spec fn cut(rate: Permille, amount: Balance) -> nat {
    rate.spec_of(amount as int) as nat
}

/// One losing stake is released; its cut is then slashed if the free balance covers it, and
/// nothing is slashed if it does not.
pub open spec fn slash_one(ledger: LedgerView, rate: Permille, stake: Stake) -> Moved {
    let released = ledger.unreserve(stake.0, stake.1 as nat);
    let due = cut(rate, stake.1);
    if due <= released.free(stake.0) {
        Moved { ledger: released.slash(stake.0, due), amount: due }
    } else {
        Moved { ledger: released, amount: 0 }
    }
}

/// The losing stakes are slashed one after the other; the amount is the rewards pool.
pub open spec fn slash_all(ledger: LedgerView, rate: Permille, losers: Seq<Stake>) -> Moved
    decreases losers.len(),
{
    if losers.len() == 0 {
        Moved { ledger, amount: 0 }
    } else {
        let before = slash_all(ledger, rate, losers.drop_last());
        let last = slash_one(before.ledger, rate, losers.last());
        Moved { ledger: last.ledger, amount: before.amount + last.amount }
    }
}

/// The share of `pool` that is due to a stake of `amount` among stakes of `total`, rounded
/// down.
pub open spec fn share(amount: nat, pool: nat, total: nat) -> nat {
    if total == 0 {
        0
    } else {
        (amount * pool) / total
    }
}

/// One stake is released and `reward` is credited to its owner, if the ledger knows the
/// account; the amount is what was credited.
pub open spec fn credit_one(ledger: LedgerView, stake: Stake, reward: nat) -> Moved {
    let released = ledger.unreserve(stake.0, stake.1 as nat);
    if released.has_account(stake.0) {
        Moved { ledger: released.deposit(stake.0, reward), amount: reward }
    } else {
        Moved { ledger: released, amount: 0 }
    }
}

/// The stakes are released and rewarded with their shares one after the other; the amount is
/// what was credited in all.
pub open spec fn share_out(ledger: LedgerView, stakes: Seq<Stake>, pool: nat, total: nat) -> Moved
    decreases stakes.len(),
{
    if stakes.len() == 0 {
        Moved { ledger, amount: 0 }
    } else {
        let before = share_out(ledger, stakes.drop_last(), pool, total);
        let last = credit_one(
            before.ledger,
            stakes.last(),
            share(stakes.last().1 as nat, pool, total),
        );
        Moved { ledger: last.ledger, amount: before.amount + last.amount }
    }
}

/// What the last winner is credited with: all of the pool that the others did not receive.
pub open spec fn dust(ledger: LedgerView, winners: Seq<Stake>, pool: nat) -> nat {
    (pool - share_out(ledger, winners.drop_last(), pool, stake_sum(winners)).amount) as nat
}

/// The winning stakes are released and the pool is distributed: every winner but the last
/// receives its share, the last receives what is left. The amount is what was credited in all.
pub open spec fn distribute(ledger: LedgerView, winners: Seq<Stake>, pool: nat) -> Moved {
    if winners.len() == 0 {
        Moved { ledger, amount: 0 }
    } else {
        let shared = share_out(ledger, winners.drop_last(), pool, stake_sum(winners));
        let last = credit_one(shared.ledger, winners.last(), dust(ledger, winners, pool));
        Moved { ledger: last.ledger, amount: shared.amount + last.amount }
    }
}

/// The side that loses the challenge of `record`.
pub open spec fn losers(record: ApplicationView) -> Seq<Stake> {
    if record.carried() {
        record.opponents()
    } else {
        record.supporters()
    }
}

/// The side that wins the challenge of `record`.
pub open spec fn winners(record: ApplicationView) -> Seq<Stake> {
    if record.carried() {
        record.supporters()
    } else {
        record.opponents()
    }
}

/// The result of resolving one challenge on the ledger.
pub struct Settled {
    /// The ledger afterwards.
    pub ledger: LedgerView,
    /// What was slashed from the losers: the rewards pool.
    pub slashed: nat,
    /// What was credited to the winners.
    pub credited: nat,
}

/// The losers are slashed, then the pool is distributed among the winners.
pub open spec fn settle(ledger: LedgerView, rate: Permille, record: ApplicationView) -> Settled {
    let pool = slash_all(ledger, rate, losers(record));
    let paid = distribute(pool.ledger, winners(record), pool.amount);
    Settled { ledger: paid.ledger, slashed: pool.amount, credited: paid.amount }
}

/// A share is no more than the pool times the stake over the total.
pub proof fn lemma_share(amount: nat, pool: nat, total: nat)
    ensures
        share(amount, pool, total) * total <= amount * pool,
        amount <= total ==> share(amount, pool, total) <= pool,
{
    if total > 0 {
        let x = (amount * pool) as int;
        lemma_fundamental_div_mod(x, total as int);
        assert((x / (total as int)) * total <= x) by (nonlinear_arith)
            requires
                x == (total as int) * (x / (total as int)) + x % (total as int),
                0 <= x % (total as int),
        ;
        if amount <= total {
            let s = share(amount, pool, total) as int;
            assert(s <= pool) by (nonlinear_arith)
                requires
                    s * total <= amount * pool,
                    amount <= total,
                    total > 0,
                    0 <= s,
                    0 <= pool,
            ;
        }
    } else {
        assert(share(amount, pool, total) * total == 0) by (nonlinear_arith)
            requires
                total == 0,
        ;
        assert(0 <= amount * pool) by (nonlinear_arith);
    }
}

/// What the shares of some stakes come to, times the total, is no more than the pool times
/// those stakes; so stakes that are part of the total never receive more than the pool.
pub proof fn lemma_share_out(ledger: LedgerView, stakes: Seq<Stake>, pool: nat, total: nat)
    ensures
        share_out(ledger, stakes, pool, total).amount * total <= pool * stake_sum(stakes),
        stake_sum(stakes) <= total ==> share_out(ledger, stakes, pool, total).amount <= pool,
        share_out(ledger, stakes, pool, total).ledger.issuance == ledger.issuance + share_out(
            ledger,
            stakes,
            pool,
            total,
        ).amount,
    decreases stakes.len(),
{
    if stakes.len() == 0 {
        assert(0 * total <= pool * stake_sum(stakes)) by (nonlinear_arith);
    } else {
        let front = stakes.drop_last();
        lemma_share_out(ledger, front, pool, total);
        let before = share_out(ledger, front, pool, total);
        let amount = stakes.last().1 as nat;
        let reward = share(amount, pool, total);
        lemma_share(amount, pool, total);
        let last = credit_one(before.ledger, stakes.last(), reward);
        assert(last.amount <= reward);
        let all = share_out(ledger, stakes, pool, total).amount;
        assert(all == before.amount + last.amount);
        assert(all * total <= pool * stake_sum(stakes)) by (nonlinear_arith)
            requires
                all == before.amount + last.amount,
                last.amount <= reward,
                reward * total <= amount * pool,
                before.amount * total <= pool * stake_sum(front),
                stake_sum(stakes) == stake_sum(front) + amount,
        ;
        if stake_sum(stakes) <= total {
            if total > 0 {
                assert(all <= pool) by (nonlinear_arith)
                    requires
                        all * total <= pool * stake_sum(stakes),
                        stake_sum(stakes) <= total,
                        total > 0,
                        0 <= all,
                        0 <= pool,
                ;
            } else {
                assert(all <= pool) by {
                    lemma_share_out_of_nothing(ledger, stakes, pool);
                }
            }
        }
    }
}

/// Where the total is zero, nothing is shared out.
pub proof fn lemma_share_out_of_nothing(ledger: LedgerView, stakes: Seq<Stake>, pool: nat)
    ensures
        share_out(ledger, stakes, pool, 0).amount == 0,
    decreases stakes.len(),
{
    if stakes.len() > 0 {
        lemma_share_out_of_nothing(ledger, stakes.drop_last(), pool);
    }
}

/// The number of tokens in support of an application: the candidate's deposit and the votes
/// for it.
pub fn supporting_of(application: &Application) -> (tokens: u128)
    ensures
        tokens == application@.supporting(),
{
    let votes: Balance = match application.votes_for {
        Some(votes) => votes,
        None => 0,
    };
    application.candidate_deposit as u128 + votes as u128
}

/// The number of tokens in opposition to an application: the challenger's deposit and the
/// votes against it.
pub fn opposing_of(application: &Application) -> (tokens: u128)
    ensures
        tokens == application@.opposing(),
{
    let deposit: Balance = match application.challenger_deposit {
        Some(deposit) => deposit,
        None => 0,
    };
    let votes: Balance = match application.votes_against {
        Some(votes) => votes,
        None => 0,
    };
    deposit as u128 + votes as u128
}

/// The side in support of an application, the candidate last.
pub fn supporters_of(application: &Application) -> (stakes: Vec<Stake>)
    ensures
        stakes@ == application@.supporters(),
{
    let mut stakes = copy_stakes(&application.voters_for);
    stakes.push((application.candidate, application.candidate_deposit));
    proof {
        assert(stakes@ =~= application@.supporters());
    }
    stakes
}

/// The side in opposition to an application, the challenger last.
pub fn opponents_of(application: &Application) -> (stakes: Vec<Stake>)
    ensures
        stakes@ == application@.opponents(),
{
    let mut stakes = copy_stakes(&application.voters_against);
    match application.challenger {
        Some(challenger) => {
            let deposit: Balance = match application.challenger_deposit {
                Some(deposit) => deposit,
                None => 0,
            };
            stakes.push((challenger, deposit));
        },
        None => {},
    }
    proof {
        assert(stakes@ =~= application@.opponents());
    }
    stakes
}

/// Releases up to `amount` of what `who` has reserved.
pub fn unreserve_for<L: Ledger>(ledger: &mut L, who: AccountId, amount: Balance)
    requires
        old(ledger).wf(),
    ensures
        final(ledger).wf(),
        final(ledger)@ == old(ledger)@.unreserve(who, amount as nat),
{
    let _ = ledger.unreserve(who, amount);
}

/// Slashes from `who` the cut of a stake of `amount`, if the free balance of `who` covers
/// the cut, and returns what was slashed.
pub fn slash_looser<L: Ledger>(
    ledger: &mut L,
    rate: Permille,
    who: AccountId,
    amount: Balance,
) -> (slashed: Balance)
    requires
        old(ledger).wf(),
    ensures
        final(ledger).wf(),
        slashed == if cut(rate, amount) <= old(ledger)@.free(who) {
            cut(rate, amount)
        } else {
            0
        },
        final(ledger)@ == if cut(rate, amount) <= old(ledger)@.free(who) {
            old(ledger)@.slash(who, cut(rate, amount))
        } else {
            old(ledger)@
        },
{
    let to_be_slashed = rate.of(amount);
    if ledger.can_slash(who, to_be_slashed) {
        ledger.slash(who, to_be_slashed)
    } else {
        0
    }
}

/// Releases and slashes every losing stake, and returns the rewards pool.
pub fn execute_slashes<L: Ledger>(
    ledger: &mut L,
    rate: Permille,
    losers: &Vec<Stake>,
) -> (pool: Balance)
    requires
        old(ledger).wf(),
    ensures
        final(ledger).wf(),
        final(ledger)@ == slash_all(old(ledger)@, rate, losers@).ledger,
        pool == slash_all(old(ledger)@, rate, losers@).amount,
        final(ledger)@.issuance + pool == old(ledger)@.issuance,
{
    let mut pool: Balance = 0;
    let mut i: usize = 0;
    while i < losers.len()
        invariant
            i <= losers.len(),
            ledger.wf(),
            old(ledger).wf(),
            ledger@ == slash_all(old(ledger)@, rate, losers@.take(i as int)).ledger,
            pool == slash_all(old(ledger)@, rate, losers@.take(i as int)).amount,
            ledger@.issuance + pool == old(ledger)@.issuance,
        decreases losers.len() - i,
    {
        let stake = losers[i];
        proof {
            assert(losers@.take(i + 1).drop_last() =~= losers@.take(i as int));
        }
        unreserve_for(ledger, stake.0, stake.1);
        let slashed = slash_looser(ledger, rate, stake.0, stake.1);
        proof {
            ledger.lemma_issuance_fits();
            old(ledger).lemma_issuance_fits();
        }
        pool = pool + slashed;
        i += 1;
    }
    proof {
        assert(losers@.take(losers.len() as int) =~= losers@);
    }
    pool
}

/// Adds up a list of stakes.
pub fn total_of(stakes: &Vec<Stake>) -> (total: u128)
    ensures
        total == stake_sum(stakes@),
{
    let mut total: u128 = 0;
    let mut i: usize = 0;
    while i < stakes.len()
        invariant
            i <= stakes.len(),
            total == stake_sum(stakes@.take(i as int)),
            total <= i * u64::MAX,
        decreases stakes.len() - i,
    {
        proof {
            assert(stakes@.take(i + 1) =~= stakes@.take(i as int).push(stakes@[i as int]));
            lemma_stake_pushed(stakes@.take(i as int), stakes@[i as int], 0);
            assert((i + 1) * u64::MAX <= usize::MAX * u64::MAX) by (nonlinear_arith)
                requires
                    i + 1 <= usize::MAX,
            ;
            assert(i * u64::MAX + u64::MAX == (i + 1) * u64::MAX) by (nonlinear_arith);
            assert(usize::MAX * u64::MAX <= u128::MAX) by (nonlinear_arith)
                requires
                    usize::MAX <= u64::MAX,
            ;
        }
        total = total + stakes[i].1 as u128;
        i += 1;
    }
    proof {
        assert(stakes@.take(stakes.len() as int) =~= stakes@);
    }
    total
}

/// The share of `pool` due to a stake of `amount` among stakes of `total`.
fn share_of(amount: Balance, pool: Balance, total: u128) -> (reward: Balance)
    requires
        amount <= total,
    ensures
        reward == share(amount as nat, pool as nat, total as nat),
        reward <= pool,
{
    proof {
        lemma_share(amount as nat, pool as nat, total as nat);
    }
    if total == 0 {
        0
    } else {
        proof {
            assert(amount * pool <= u64::MAX * u64::MAX) by (nonlinear_arith)
                requires
                    amount <= u64::MAX,
                    pool <= u64::MAX,
            ;
        }
        let product: u128 = amount as u128 * pool as u128;
        (product / total) as Balance
    }
}

/// Releases one stake and credits `reward` to its owner; returns what was credited: nothing
/// where the ledger does not know the account.
fn credit<L: Ledger>(ledger: &mut L, stake: Stake, reward: Balance) -> (credited: Balance)
    requires
        old(ledger).wf(),
        old(ledger)@.issuance + reward <= u64::MAX,
    ensures
        final(ledger).wf(),
        final(ledger)@ == credit_one(old(ledger)@, stake, reward as nat).ledger,
        credited == credit_one(old(ledger)@, stake, reward as nat).amount,
        final(ledger)@.issuance == old(ledger)@.issuance + credited,
{
    unreserve_for(ledger, stake.0, stake.1);
    match ledger.deposit_into_existing(stake.0, reward) {
        Ok(credited) => credited,
        Err(_) => 0,
    }
}

/// Releases every winning stake and distributes the pool; returns what was credited.
pub(crate) fn execute_rewards<L: Ledger>(
    ledger: &mut L,
    winners: &Vec<Stake>,
    pool: Balance,
) -> (credited: Balance)
    requires
        old(ledger).wf(),
        old(ledger)@.issuance + pool <= u64::MAX,
    ensures
        final(ledger).wf(),
        final(ledger)@ == distribute(old(ledger)@, winners@, pool as nat).ledger,
        credited == distribute(old(ledger)@, winners@, pool as nat).amount,
        credited <= pool,
{
    if winners.len() == 0 {
        return 0;
    }
    let total = total_of(winners);
    let others: usize = winners.len() - 1;
    let mut allocated: Balance = 0;
    let mut i: usize = 0;
    while i < others
        invariant
            i <= others,
            others == winners.len() - 1,
            total == stake_sum(winners@),
            ledger.wf(),
            old(ledger)@.issuance + pool <= u64::MAX,
            ledger@ == share_out(
                old(ledger)@,
                winners@.take(i as int),
                pool as nat,
                total as nat,
            ).ledger,
            allocated == share_out(
                old(ledger)@,
                winners@.take(i as int),
                pool as nat,
                total as nat,
            ).amount,
            ledger@.issuance == old(ledger)@.issuance + allocated,
            allocated <= pool,
        decreases others - i,
    {
        let stake = winners[i];
        proof {
            assert(winners@.take(i + 1).drop_last() =~= winners@.take(i as int));
            lemma_stake_sum_grows(winners@, i + 1);
            lemma_stake_pushed(winners@.take(i as int), stake, 0);
            assert(winners@.take(i + 1) =~= winners@.take(i as int).push(stake));
            lemma_share_out(old(ledger)@, winners@.take(i + 1), pool as nat, total as nat);
            lemma_share(stake.1 as nat, pool as nat, total as nat);
        }
        let reward = share_of(stake.1, pool, total);
        proof {
            let dealt = winners@.take(i as int);
            let before = share_out(old(ledger)@, dealt, pool as nat, total as nat);
            let after = share_out(old(ledger)@, winners@.take(i + 1), pool as nat, total as nat);
            assert(after.amount == before.amount + credit_one(
                before.ledger,
                stake,
                reward as nat,
            ).amount);
            assert(after.amount <= pool);
            // A credit that fails leaves the reward in the pool, so the bound on what is
            // allocated has to hold for the case in which it succeeds as well.
            lemma_allocation_fits(old(ledger)@, dealt, stake, pool as nat, total as nat);
        }
        let credited = credit(ledger, stake, reward);
        allocated = allocated + credited;
        i += 1;
    }
    proof {
        assert(winners@.take(others as int) =~= winners@.drop_last());
    }
    let last = winners[others];
    let remaining = pool - allocated;
    let credited = credit(ledger, last, remaining);
    allocated + credited
}

/// After the shares of some stakes, the share of a further stake still fits the pool, whether
/// or not the earlier credits came through.
pub proof fn lemma_allocation_fits(
    ledger: LedgerView,
    stakes: Seq<Stake>,
    next: Stake,
    pool: nat,
    total: nat,
)
    requires
        stake_sum(stakes) + next.1 <= total,
    ensures
        share_out(ledger, stakes, pool, total).amount + share(next.1 as nat, pool, total) <= pool,
{
    let amount = next.1 as nat;
    let before = share_out(ledger, stakes, pool, total).amount;
    let reward = share(amount, pool, total);
    lemma_share_out(ledger, stakes, pool, total);
    lemma_share(amount, pool, total);
    if total > 0 {
        assert(before + reward <= pool) by (nonlinear_arith)
            requires
                before * total <= pool * stake_sum(stakes),
                reward * total <= amount * pool,
                stake_sum(stakes) + amount <= total,
                total > 0,
                0 <= before,
                0 <= reward,
                0 <= pool,
        ;
    } else {
        lemma_share_out_of_nothing(ledger, stakes, pool);
    }
}

/// Resolves the challenge of `application` on the ledger: slashes the losing side and
/// rewards the winning side. Returns the rewards pool and what of it was credited.
pub fn settle_challenge<L: Ledger>(
    ledger: &mut L,
    rate: Permille,
    application: &Application,
) -> (outcome: (Balance, Balance))
    requires
        old(ledger).wf(),
    ensures
        final(ledger).wf(),
        final(ledger)@ == settle(old(ledger)@, rate, application@).ledger,
        outcome.0 == settle(old(ledger)@, rate, application@).slashed,
        outcome.1 == settle(old(ledger)@, rate, application@).credited,
        outcome.1 <= outcome.0,
{
    let accepted = supporting_of(application) > opposing_of(application);
    let supporters = supporters_of(application);
    let opponents = opponents_of(application);
    let (to_slash, to_reward) = if accepted {
        (opponents, supporters)
    } else {
        (supporters, opponents)
    };
    let pool = execute_slashes(ledger, rate, &to_slash);
    proof {
        old(ledger).lemma_issuance_fits();
        ledger.lemma_issuance_fits();
    }
    let credited = execute_rewards(ledger, &to_reward, pool);
    (pool, credited)
}

/// Slashing stakes neither opens nor closes an account.
pub proof fn lemma_slashing_keeps_accounts(ledger: LedgerView, rate: Permille, stakes: Seq<Stake>)
    ensures
        slash_all(ledger, rate, stakes).ledger.accounts.dom() == ledger.accounts.dom(),
    decreases stakes.len(),
{
    if stakes.len() > 0 {
        lemma_slashing_keeps_accounts(ledger, rate, stakes.drop_last());
        let slashed = slash_all(ledger, rate, stakes.drop_last()).ledger;
        assert(slash_one(slashed, rate, stakes.last()).ledger.accounts.dom()
            =~= slashed.accounts.dom());
    }
}

/// Sharing out a pool neither opens nor closes an account.
pub proof fn lemma_sharing_keeps_accounts(
    ledger: LedgerView,
    stakes: Seq<Stake>,
    pool: nat,
    total: nat,
)
    ensures
        share_out(ledger, stakes, pool, total).ledger.accounts.dom() == ledger.accounts.dom(),
    decreases stakes.len(),
{
    if stakes.len() > 0 {
        lemma_sharing_keeps_accounts(ledger, stakes.drop_last(), pool, total);
        let shared = share_out(ledger, stakes.drop_last(), pool, total).ledger;
        let last = stakes.last();
        assert(credit_one(shared, last, share(last.1 as nat, pool, total)).ledger.accounts.dom()
            =~= shared.accounts.dom());
    }
}

/// The shares that were due to accounts that the ledger does not know, and so were not
/// credited to them.
pub open spec fn refused(ledger: LedgerView, stakes: Seq<Stake>, pool: nat, total: nat) -> nat
    decreases stakes.len(),
{
    if stakes.len() == 0 {
        0
    } else {
        refused(ledger, stakes.drop_last(), pool, total) + if ledger.has_account(stakes.last().0) {
            0
        } else {
            share(stakes.last().1 as nat, pool, total)
        }
    }
}

/// The credits that failed because the ledger does not know the account: the shares of the
/// winners before the last, and what was left for the last winner.
pub open spec fn failed_credits(ledger: LedgerView, winners: Seq<Stake>, pool: nat) -> nat {
    refused(ledger, winners.drop_last(), pool, stake_sum(winners)) + if ledger.has_account(
        winners.last().0,
    ) {
        0
    } else {
        dust(ledger, winners, pool)
    }
}

/// Of a pool that is distributed among winners, no more is credited than the pool holds;
/// all of it is credited where the ledger knows the last winner, and what was left for the
/// last winner is lost where it does not.
pub proof fn lemma_pool_is_paid_out(ledger: LedgerView, winners: Seq<Stake>, pool: nat)
    requires
        winners.len() > 0,
    ensures
        distribute(ledger, winners, pool).amount <= pool,
        ledger.has_account(winners.last().0) ==> distribute(ledger, winners, pool).amount == pool,
        !ledger.has_account(winners.last().0) ==> pool - distribute(ledger, winners, pool).amount
            == dust(ledger, winners, pool),
{
    let total = stake_sum(winners);
    let front = winners.drop_last();
    let last = winners.last();
    lemma_share_out(ledger, front, pool, total);
    lemma_sharing_keeps_accounts(ledger, front, pool, total);
    let shared = share_out(ledger, front, pool, total);
    assert(shared.ledger.unreserve(last.0, last.1 as nat).accounts.dom()
        =~= shared.ledger.accounts.dom());
}

/// Where every credit that failed before the last was a credit of nothing, the part of the
/// pool that was not credited is the sum of the credits that failed.
pub proof fn lemma_uncredited_is_failed_credits(ledger: LedgerView, winners: Seq<Stake>, pool: nat)
    requires
        winners.len() > 0,
        refused(ledger, winners.drop_last(), pool, stake_sum(winners)) == 0,
    ensures
        pool - distribute(ledger, winners, pool).amount == failed_credits(ledger, winners, pool),
{
    lemma_pool_is_paid_out(ledger, winners, pool);
}

/// When a challenge is resolved, the winners are credited with no more than was slashed from
/// the losers; with all of it where the ledger knows the last winner, and without what was
/// left for the last winner where it does not.
pub proof fn lemma_settled_within_pool(ledger: LedgerView, rate: Permille, record: ApplicationView)
    requires
        record.carried() || record.challenger is Some,
    ensures
        settle(ledger, rate, record).credited <= settle(ledger, rate, record).slashed,
        ledger.has_account(winners(record).last().0) ==> settle(ledger, rate, record).credited
            == settle(ledger, rate, record).slashed,
        !ledger.has_account(winners(record).last().0) ==> settle(ledger, rate, record).slashed
            - settle(ledger, rate, record).credited == dust(
            slash_all(ledger, rate, losers(record)).ledger,
            winners(record),
            settle(ledger, rate, record).slashed,
        ),
{
    let pool = slash_all(ledger, rate, losers(record));
    lemma_slashing_keeps_accounts(ledger, rate, losers(record));
    lemma_pool_is_paid_out(pool.ledger, winners(record), pool.amount);
}

/// When a challenge is resolved and every credit that failed before the last was a credit of
/// nothing, what was slashed and not credited is the sum of the credits that failed.
pub proof fn lemma_settled_less_failed_credits(
    ledger: LedgerView,
    rate: Permille,
    record: ApplicationView,
)
    requires
        record.carried() || record.challenger is Some,
        refused(
            slash_all(ledger, rate, losers(record)).ledger,
            winners(record).drop_last(),
            settle(ledger, rate, record).slashed,
            stake_sum(winners(record)),
        ) == 0,
    ensures
        settle(ledger, rate, record).slashed - settle(ledger, rate, record).credited
            == failed_credits(
            slash_all(ledger, rate, losers(record)).ledger,
            winners(record),
            settle(ledger, rate, record).slashed,
        ),
{
    let pool = slash_all(ledger, rate, losers(record));
    lemma_uncredited_is_failed_credits(pool.ledger, winners(record), pool.amount);
}

} // verus!
