//! What the accounts have at stake in the pending records, and how the ledger's reserves
//! answer to it.

use crate::application::{lemma_uncontested_stake, stake_of, ApplicationView, Stake};
use crate::finalize::{due, lemma_record_at, settle_pass, unripe};
use crate::ledger::LedgerView;
use crate::permille::Permille;
use crate::registry::{lemma_rank, listed, ordered, put, rank, record_of, without};
use crate::settlement::{
    credit_one, distribute, dust, losers, settle, share, share_out, slash_all, slash_one, winners,
};
use crate::tcr::{Config, ModuleView};
use crate::types::{AccountId, BlockNumber};
use vstd::prelude::*;

verus! {

/// What `who` has at stake in the records, as candidate, as challenger and as voter.
pub open spec fn staked(records: Seq<ApplicationView>, who: AccountId) -> nat
    decreases records.len(),
{
    if records.len() == 0 {
        0
    } else {
        staked(records.drop_last(), who) + records.last().stake_in(who)
    }
}

/// Every account has reserved on the ledger exactly what it has at stake in the pending
/// applications and the challenges.
pub open spec fn backed(
    applications: Seq<ApplicationView>,
    challenges: Seq<ApplicationView>,
    ledger: LedgerView,
) -> bool {
    forall|who: AccountId| #[trigger]
        ledger.reserved(who) == staked(applications, who) + staked(challenges, who)
}

/// While there is no pending application and no challenge, the reserves are in step with
/// the stakes exactly if nothing is reserved.
pub proof fn lemma_backed_at_the_start(ledger: LedgerView)
    ensures
        backed(Seq::empty(), Seq::empty(), ledger) <==> forall|who: AccountId| #[trigger]
            ledger.reserved(who) == 0,
{
    assert forall|who: AccountId| staked(Seq::empty(), who) == 0 by {}
}

/// An account that has nothing at stake in any record has nothing at stake in the records.
pub proof fn lemma_nothing_staked(records: Seq<ApplicationView>, who: AccountId)
    requires
        forall|i: int| 0 <= i < records.len() ==> (#[trigger] records[i]).stake_in(who) == 0,
    ensures
        staked(records, who) == 0,
    decreases records.len(),
{
    if records.len() > 0 {
        let front = records.drop_last();
        assert forall|i: int| 0 <= i < front.len() implies (#[trigger] front[i]).stake_in(who)
            == 0 by {
            assert(front[i] == records[i]);
        }
        lemma_nothing_staked(front, who);
        assert(records.last() == records[records.len() - 1]);
    }
}

/// While the reserves are in step with the stakes, an account that has nothing at stake in
/// any pending application or challenge has nothing in reserve.
pub proof fn lemma_no_stake_no_reserve(
    applications: Seq<ApplicationView>,
    challenges: Seq<ApplicationView>,
    ledger: LedgerView,
    who: AccountId,
)
    requires
        backed(applications, challenges, ledger),
        forall|i: int|
            0 <= i < applications.len() ==> (#[trigger] applications[i]).stake_in(who) == 0,
        forall|i: int| 0 <= i < challenges.len() ==> (#[trigger] challenges[i]).stake_in(who) == 0,
    ensures
        ledger.reserved(who) == 0,
{
    lemma_nothing_staked(applications, who);
    lemma_nothing_staked(challenges, who);
    assert(ledger.reserved(who) == staked(applications, who) + staked(challenges, who));
}

/// A record more is its stakes more.
pub proof fn lemma_staked_insert(
    records: Seq<ApplicationView>,
    at: int,
    record: ApplicationView,
    who: AccountId,
)
    requires
        0 <= at <= records.len(),
    ensures
        staked(records.insert(at, record), who) == staked(records, who) + record.stake_in(who),
    decreases records.len(),
{
    let after = records.insert(at, record);
    if at == records.len() {
        assert(after.drop_last() =~= records);
    } else {
        assert(after.drop_last() =~= records.drop_last().insert(at, record));
        lemma_staked_insert(records.drop_last(), at, record, who);
    }
}

/// A record less is its stakes less.
pub proof fn lemma_staked_remove(records: Seq<ApplicationView>, at: int, who: AccountId)
    requires
        0 <= at < records.len(),
    ensures
        staked(records.remove(at), who) == staked(records, who) - records[at].stake_in(who),
    decreases records.len(),
{
    let after = records.remove(at);
    if at == records.len() - 1 {
        assert(after =~= records.drop_last());
    } else {
        assert(after.drop_last() =~= records.drop_last().remove(at));
        lemma_staked_remove(records.drop_last(), at, who);
    }
}

/// A record replaced is its stakes replaced.
pub proof fn lemma_staked_update(
    records: Seq<ApplicationView>,
    at: int,
    record: ApplicationView,
    who: AccountId,
)
    requires
        0 <= at < records.len(),
    ensures
        staked(records.update(at, record), who) == staked(records, who) - records[at].stake_in(
            who,
        ) + record.stake_in(who),
    decreases records.len(),
{
    let after = records.update(at, record);
    if at == records.len() - 1 {
        assert(after.drop_last() =~= records.drop_last());
    } else {
        assert(after.drop_last() =~= records.drop_last().update(at, record));
        lemma_staked_update(records.drop_last(), at, record, who);
    }
}

/// Putting a record adds its stakes and takes away those of the record it replaces.
pub proof fn lemma_staked_put(
    records: Seq<ApplicationView>,
    record: ApplicationView,
    who: AccountId,
)
    requires
        ordered(records),
    ensures
        staked(put(records, record), who) == staked(records, who) + record.stake_in(who)
            - if listed(records, record.candidate) {
            record_of(records, record.candidate).stake_in(who)
        } else {
            0
        },
{
    lemma_rank(records, record.candidate);
    let at = rank(records, record.candidate);
    if listed(records, record.candidate) {
        lemma_staked_update(records, at, record, who);
    } else {
        lemma_staked_insert(records, at, record, who);
    }
}

/// Taking a record out takes its stakes away.
pub proof fn lemma_staked_without(records: Seq<ApplicationView>, gone: AccountId, who: AccountId)
    requires
        ordered(records),
    ensures
        staked(without(records, gone), who) == staked(records, who) - if listed(records, gone) {
            record_of(records, gone).stake_in(who)
        } else {
            0
        },
{
    lemma_rank(records, gone);
    if listed(records, gone) {
        lemma_staked_remove(records, rank(records, gone), who);
    }
}

/// A losing stake that its owner has reserved is released in full when it is slashed, and
/// nobody else's reserve changes.
pub proof fn lemma_slash_one_releases(
    ledger: LedgerView,
    rate: Permille,
    stake: Stake,
    who: AccountId,
)
    requires
        stake.1 <= ledger.reserved(stake.0),
    ensures
        slash_one(ledger, rate, stake).ledger.reserved(who) == ledger.reserved(who) - if who
            == stake.0 {
            stake.1 as nat
        } else {
            0
        },
{
}

/// A winning stake that its owner has reserved is released in full when it is rewarded, and
/// nobody else's reserve changes.
pub proof fn lemma_credit_one_releases(
    ledger: LedgerView,
    stake: Stake,
    reward: nat,
    who: AccountId,
)
    requires
        stake.1 <= ledger.reserved(stake.0),
    ensures
        credit_one(ledger, stake, reward).ledger.reserved(who) == ledger.reserved(who) - if who
            == stake.0 {
            stake.1 as nat
        } else {
            0
        },
{
}

/// Losing stakes that their owners have reserved are released in full.
pub proof fn lemma_slash_all_releases(
    ledger: LedgerView,
    rate: Permille,
    stakes: Seq<Stake>,
    who: AccountId,
)
    requires
        forall|w: AccountId| #[trigger] stake_of(stakes, w) <= ledger.reserved(w),
    ensures
        slash_all(ledger, rate, stakes).ledger.reserved(who) == ledger.reserved(who) - stake_of(
            stakes,
            who,
        ),
    decreases stakes.len(),
{
    if stakes.len() > 0 {
        let front = stakes.drop_last();
        let last = stakes.last();
        assert forall|w: AccountId| #[trigger] stake_of(front, w) <= ledger.reserved(w) by {
            assert(stake_of(stakes, w) <= ledger.reserved(w));
        }
        lemma_slash_all_releases(ledger, rate, front, who);
        lemma_slash_all_releases(ledger, rate, front, last.0);
        assert(stake_of(stakes, last.0) <= ledger.reserved(last.0));
        lemma_slash_one_releases(slash_all(ledger, rate, front).ledger, rate, last, who);
    }
}

/// Winning stakes that their owners have reserved are released in full.
pub proof fn lemma_share_out_releases(
    ledger: LedgerView,
    stakes: Seq<Stake>,
    pool: nat,
    total: nat,
    who: AccountId,
)
    requires
        forall|w: AccountId| #[trigger] stake_of(stakes, w) <= ledger.reserved(w),
    ensures
        share_out(ledger, stakes, pool, total).ledger.reserved(who) == ledger.reserved(who)
            - stake_of(stakes, who),
    decreases stakes.len(),
{
    if stakes.len() > 0 {
        let front = stakes.drop_last();
        let last = stakes.last();
        assert forall|w: AccountId| #[trigger] stake_of(front, w) <= ledger.reserved(w) by {
            assert(stake_of(stakes, w) <= ledger.reserved(w));
        }
        lemma_share_out_releases(ledger, front, pool, total, who);
        lemma_share_out_releases(ledger, front, pool, total, last.0);
        assert(stake_of(stakes, last.0) <= ledger.reserved(last.0));
        lemma_credit_one_releases(
            share_out(ledger, front, pool, total).ledger,
            last,
            share(last.1 as nat, pool, total),
            who,
        );
    }
}

/// The stakes of the winners that their owners have reserved are released in full when the
/// pool is distributed.
pub proof fn lemma_distribute_releases(
    ledger: LedgerView,
    stakes: Seq<Stake>,
    pool: nat,
    who: AccountId,
)
    requires
        forall|w: AccountId| #[trigger] stake_of(stakes, w) <= ledger.reserved(w),
    ensures
        distribute(ledger, stakes, pool).ledger.reserved(who) == ledger.reserved(who) - stake_of(
            stakes,
            who,
        ),
{
    if stakes.len() > 0 {
        let front = stakes.drop_last();
        let last = stakes.last();
        let total = crate::application::stake_sum(stakes);
        assert forall|w: AccountId| #[trigger] stake_of(front, w) <= ledger.reserved(w) by {
            assert(stake_of(stakes, w) <= ledger.reserved(w));
        }
        lemma_share_out_releases(ledger, front, pool, total, who);
        lemma_share_out_releases(ledger, front, pool, total, last.0);
        assert(stake_of(stakes, last.0) <= ledger.reserved(last.0));
        lemma_credit_one_releases(
            share_out(ledger, front, pool, total).ledger,
            last,
            dust(ledger, stakes, pool),
            who,
        );
    }
}

/// When a challenge is resolved whose stakes their owners have reserved, every account's
/// reserve goes down by what it had at stake in the challenge.
pub proof fn lemma_settle_releases(
    ledger: LedgerView,
    rate: Permille,
    record: ApplicationView,
    who: AccountId,
)
    requires
        forall|w: AccountId| #[trigger] record.stake_in(w) <= ledger.reserved(w),
    ensures
        settle(ledger, rate, record).ledger.reserved(who) == ledger.reserved(who)
            - record.stake_in(who),
{
    let lost = losers(record);
    let won = winners(record);
    assert forall|w: AccountId| #[trigger] stake_of(lost, w) <= ledger.reserved(w) by {
        assert(record.stake_in(w) <= ledger.reserved(w));
    }
    let pool = slash_all(ledger, rate, lost);
    assert forall|w: AccountId| #[trigger] stake_of(won, w) <= pool.ledger.reserved(w) by {
        assert(record.stake_in(w) <= ledger.reserved(w));
        lemma_slash_all_releases(ledger, rate, lost, w);
    }
    lemma_slash_all_releases(ledger, rate, lost, who);
    lemma_distribute_releases(pool.ledger, won, pool.amount, who);
}

/// What `who` has at stake in the records that are due.
pub open spec fn ripe_stakes(
    records: Seq<ApplicationView>,
    contested: bool,
    who: AccountId,
    now: BlockNumber,
    period: BlockNumber,
) -> nat
    decreases records.len(),
{
    if records.len() == 0 {
        0
    } else {
        ripe_stakes(records.drop_last(), contested, who, now, period) + if due(
            records.last(),
            contested,
            now,
            period,
        ) {
            records.last().stake_in(who)
        } else {
            0
        }
    }
}

/// What is at stake in the records is at stake in those that are due or in those that are
/// not.
pub proof fn lemma_stakes_split(
    records: Seq<ApplicationView>,
    contested: bool,
    who: AccountId,
    now: BlockNumber,
    period: BlockNumber,
)
    ensures
        staked(records, who) == staked(unripe(records, contested, now, period), who) + ripe_stakes(
            records,
            contested,
            who,
            now,
            period,
        ),
    decreases records.len(),
{
    if records.len() > 0 {
        lemma_stakes_split(records.drop_last(), contested, who, now, period);
        let kept = unripe(records.drop_last(), contested, now, period);
        assert(kept.push(records.last()).drop_last() =~= kept);
    }
}

/// Where no record that is due holds a stake of `who`, `who` has nothing at stake in the
/// records that are due.
pub proof fn lemma_no_ripe_stakes(
    records: Seq<ApplicationView>,
    contested: bool,
    who: AccountId,
    now: BlockNumber,
    period: BlockNumber,
)
    requires
        forall|i: int|
            0 <= i < records.len() && due(#[trigger] records[i], contested, now, period)
                ==> records[i].stake_in(who) == 0,
    ensures
        ripe_stakes(records, contested, who, now, period) == 0,
    decreases records.len(),
{
    if records.len() > 0 {
        let front = records.drop_last();
        assert forall|i: int|
            0 <= i < front.len() && due(#[trigger] front[i], contested, now, period)
                implies front[i].stake_in(who) == 0 by {
            assert(front[i] == records[i]);
        }
        lemma_no_ripe_stakes(front, contested, who, now, period);
        assert(records.last() == records[records.len() - 1]);
    }
}

/// When the challenges that are due are resolved and their stakes are reserved, every
/// account's reserve goes down by what it had at stake in them.
pub proof fn lemma_settle_pass_releases(
    ledger: LedgerView,
    records: Seq<ApplicationView>,
    rate: Permille,
    now: BlockNumber,
    period: BlockNumber,
    who: AccountId,
)
    requires
        forall|w: AccountId| #[trigger]
            ripe_stakes(records, true, w, now, period) <= ledger.reserved(w),
    ensures
        settle_pass(ledger, records, rate, now, period).reserved(who) == ledger.reserved(who)
            - ripe_stakes(records, true, who, now, period),
    decreases records.len(),
{
    if records.len() > 0 {
        let front = records.drop_last();
        let last = records.last();
        assert forall|w: AccountId| #[trigger]
            ripe_stakes(front, true, w, now, period) <= ledger.reserved(w) by {
            assert(ripe_stakes(records, true, w, now, period) <= ledger.reserved(w));
        }
        lemma_settle_pass_releases(ledger, front, rate, now, period, who);
        if due(last, true, now, period) {
            let before = settle_pass(ledger, front, rate, now, period);
            assert forall|w: AccountId| #[trigger] last.stake_in(w) <= before.reserved(w) by {
                assert(ripe_stakes(records, true, w, now, period) <= ledger.reserved(w));
                lemma_settle_pass_releases(ledger, front, rate, now, period, w);
            }
            lemma_settle_releases(before, rate, last, who);
        }
    }
}

impl ModuleView {
    /// Every pending application that is due at block `now` was made without a deposit.
    pub open spec fn admits_no_deposit(self, config: Config, now: BlockNumber) -> bool {
        forall|who: AccountId| #[trigger]
            self.admits(config, now, who) ==> record_of(self.applications, who).candidate_deposit
                == 0
    }
}

/// The end of a block keeps the reserves in step with the stakes, unless it admits an
/// application with a deposit: the stakes of the challenges that it resolves are released,
/// and nothing else. The deposit of an application that is admitted stays in reserve.
pub proof fn lemma_block_keeps_backing(
    view: ModuleView,
    ledger: LedgerView,
    config: Config,
    now: BlockNumber,
)
    requires
        view.wf(),
        view.admits_no_deposit(config, now),
        backed(view.applications, view.challenges, ledger),
    ensures
        backed(
            view.finalized(config, now).applications,
            view.finalized(config, now).challenges,
            view.settled(ledger, config, now),
        ),
{
    let period = config.finalize_challenge_period;
    let waiting = config.finalize_application_period;
    let rate = config.loosers_slash;
    let after = view.settled(ledger, config, now);
    let pending = unripe(view.applications, false, now, waiting);
    let kept = unripe(view.challenges, true, now, period);
    assert forall|w: AccountId| #[trigger]
        ripe_stakes(view.challenges, true, w, now, period) <= ledger.reserved(w) by {
        lemma_stakes_split(view.challenges, true, w, now, period);
        assert(ledger.reserved(w) == staked(view.applications, w) + staked(view.challenges, w));
    }
    assert forall|who: AccountId| #[trigger]
        after.reserved(who) == staked(pending, who) + staked(kept, who) by {
        lemma_settle_pass_releases(ledger, view.challenges, rate, now, period, who);
        lemma_stakes_split(view.challenges, true, who, now, period);
        lemma_stakes_split(view.applications, false, who, now, waiting);
        assert forall|i: int|
            0 <= i < view.applications.len() && due(
                #[trigger] view.applications[i],
                false,
                now,
                waiting,
            ) implies view.applications[i].stake_in(who) == 0 by {
            let record = view.applications[i];
            lemma_record_at(view.applications, i);
            assert(view.admits(config, now, record.candidate));
            assert(record_of(view.applications, record.candidate).uncontested());
            lemma_uncontested_stake(record, who);
        }
        lemma_no_ripe_stakes(view.applications, false, who, now, waiting);
        assert(ledger.reserved(who) == staked(view.applications, who) + staked(
            view.challenges,
            who,
        ));
    }
}

} // verus!
