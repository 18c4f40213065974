//! The deposits that the records hold, and how they answer to the minima of the rules.
//!
//! Every call refuses a deposit below its minimum, and no call or block changes a deposit
//! that a record holds. So a registry whose records were paid for in full stays that way.

use crate::application::{fresh, ApplicationView};
use crate::finalize::{
    commit_pass, due, lemma_commit_pass_members, lemma_commit_pass_ordered, lemma_finalized_wf,
    lemma_record_at, lemma_resolve_pass_members, lemma_resolve_pass_ordered, lemma_unripe,
    resolve_pass, start, Pass,
};
use crate::registry::{lemma_put, lemma_rank, lemma_without, listed, ordered, record_of};
use crate::tcr::{Config, ModuleView};
use crate::types::{AccountId, Balance, BlockNumber};
use vstd::prelude::*;

verus! {

/// The candidate deposited at least the minimum of an application.
pub open spec fn applicant_paid(record: ApplicationView, config: Config) -> bool {
    record.candidate_deposit >= config.minimum_application_amount
}

/// The challenger deposited at least the minimum for contesting an application or, where the
/// candidate is a member, at least the minimum for challenging a member.
pub open spec fn challenger_paid(record: ApplicationView, config: Config, member: bool) -> bool {
    match record.challenger_deposit {
        Some(deposit) => deposit >= config.minimum_counter_amount || (member && deposit
            >= config.minimum_challenge_amount),
        None => false,
    }
}

impl ModuleView {
    /// Every record holds deposits of at least the minima: the candidate's in the pending
    /// applications, the challenges and the members, and the challenger's in the challenges.
    pub open spec fn funded(self, config: Config) -> bool {
        &&& forall|who: AccountId|
            listed(self.applications, who) ==> applicant_paid(
                #[trigger] record_of(self.applications, who),
                config,
            )
        &&& forall|who: AccountId|
            listed(self.challenges, who) ==> applicant_paid(
                #[trigger] record_of(self.challenges, who),
                config,
            ) && challenger_paid(
                record_of(self.challenges, who),
                config,
                listed(self.members, who),
            )
        &&& forall|who: AccountId|
            listed(self.members, who) ==> applicant_paid(
                #[trigger] record_of(self.members, who),
                config,
            )
    }
}

/// A registry without records is paid for.
pub proof fn lemma_funded_at_the_start(view: ModuleView, config: Config)
    requires
        view.applications.len() == 0,
        view.challenges.len() == 0,
        view.members.len() == 0,
    ensures
        view.funded(config),
{
}

/// An application with a deposit of at least the minimum keeps the records paid for.
pub proof fn lemma_apply_keeps_funded(
    view: ModuleView,
    config: Config,
    origin: AccountId,
    metadata: Seq<u8>,
    deposit: Balance,
    now: BlockNumber,
)
    requires
        view.wf(),
        view.funded(config),
        deposit >= config.minimum_application_amount,
    ensures
        view.applied(origin, metadata, deposit, now).funded(config),
{
    let record = fresh(origin, metadata, deposit, now);
    let after = view.applied(origin, metadata, deposit, now);
    lemma_put(view.applications, record);
    assert forall|who: AccountId| listed(after.applications, who) implies applicant_paid(
        #[trigger] record_of(after.applications, who),
        config,
    ) by {
        if who != origin {
            assert(applicant_paid(record_of(view.applications, who), config));
        }
    }
}

/// Contesting an application with a deposit of at least the minimum keeps the records paid
/// for.
pub proof fn lemma_counter_keeps_funded(
    view: ModuleView,
    config: Config,
    origin: AccountId,
    member: AccountId,
    deposit: Balance,
    now: BlockNumber,
)
    requires
        view.wf(),
        view.funded(config),
        listed(view.applications, member),
        deposit >= config.minimum_counter_amount,
    ensures
        view.countered(origin, member, deposit, now).funded(config),
{
    let record = record_of(view.applications, member);
    let contested = record.countered(origin, deposit, now);
    let after = view.countered(origin, member, deposit, now);
    lemma_rank(view.applications, member);
    assert(applicant_paid(record, config));
    lemma_without(view.applications, member);
    lemma_put(view.challenges, contested);
    assert forall|who: AccountId| listed(after.applications, who) implies applicant_paid(
        #[trigger] record_of(after.applications, who),
        config,
    ) by {
        assert(applicant_paid(record_of(view.applications, who), config));
    }
    assert forall|who: AccountId| listed(after.challenges, who) implies applicant_paid(
        #[trigger] record_of(after.challenges, who),
        config,
    ) && challenger_paid(record_of(after.challenges, who), config, listed(after.members, who)) by {
        if who != member {
            assert(applicant_paid(record_of(view.challenges, who), config));
        }
    }
}

/// A vote keeps the records paid for.
pub proof fn lemma_vote_keeps_funded(
    view: ModuleView,
    config: Config,
    origin: AccountId,
    member: AccountId,
    supporting: bool,
    deposit: Balance,
)
    requires
        view.wf(),
        view.funded(config),
        listed(view.challenges, member),
    ensures
        view.voted(origin, member, supporting, deposit).funded(config),
{
    let record = record_of(view.challenges, member);
    let after = view.voted(origin, member, supporting, deposit);
    lemma_rank(view.challenges, member);
    assert(applicant_paid(record, config));
    lemma_put(view.challenges, record.voted(origin, supporting, deposit));
    assert forall|who: AccountId| listed(after.challenges, who) implies applicant_paid(
        #[trigger] record_of(after.challenges, who),
        config,
    ) && challenger_paid(record_of(after.challenges, who), config, listed(after.members, who)) by {
        if who != member {
            assert(applicant_paid(record_of(view.challenges, who), config));
        }
    }
}

/// Challenging a member with a deposit of at least the minimum keeps the records paid for.
pub proof fn lemma_challenge_keeps_funded(
    view: ModuleView,
    config: Config,
    origin: AccountId,
    member: AccountId,
    deposit: Balance,
    now: BlockNumber,
)
    requires
        view.wf(),
        view.funded(config),
        listed(view.members, member),
        deposit >= config.minimum_challenge_amount,
    ensures
        view.challenged(origin, member, deposit, now).funded(config),
{
    let record = record_of(view.members, member);
    let after = view.challenged(origin, member, deposit, now);
    lemma_rank(view.members, member);
    assert(applicant_paid(record, config));
    lemma_put(view.challenges, record.challenged(origin, deposit, now));
    assert forall|who: AccountId| listed(after.challenges, who) implies applicant_paid(
        #[trigger] record_of(after.challenges, who),
        config,
    ) && challenger_paid(record_of(after.challenges, who), config, listed(after.members, who)) by {
        if who != member {
            assert(applicant_paid(record_of(view.challenges, who), config));
        }
    }
}

/// Where the members and the pending applications are paid for, the members after the walk
/// over the pending applications are.
pub proof fn lemma_commit_pass_paid(
    pass: Pass,
    records: Seq<ApplicationView>,
    config: Config,
    now: BlockNumber,
    period: BlockNumber,
)
    requires
        ordered(pass.members),
        forall|who: AccountId|
            listed(pass.members, who) ==> applicant_paid(
                #[trigger] record_of(pass.members, who),
                config,
            ),
        forall|i: int| 0 <= i < records.len() ==> applicant_paid(#[trigger] records[i], config),
    ensures
        forall|who: AccountId|
            listed(commit_pass(pass, records, now, period).members, who) ==> applicant_paid(
                #[trigger] record_of(commit_pass(pass, records, now, period).members, who),
                config,
            ),
    decreases records.len(),
{
    if records.len() > 0 {
        let front = records.drop_last();
        let last = records.last();
        assert forall|i: int| 0 <= i < front.len() implies applicant_paid(
            #[trigger] front[i],
            config,
        ) by {
            assert(front[i] == records[i]);
        }
        lemma_commit_pass_paid(pass, front, config, now, period);
        lemma_commit_pass_ordered(pass, front, now, period);
        let before = commit_pass(pass, front, now, period);
        let after = commit_pass(pass, records, now, period);
        lemma_put(before.members, last);
        assert(applicant_paid(records[records.len() - 1], config));
        assert forall|who: AccountId| listed(after.members, who) implies applicant_paid(
            #[trigger] record_of(after.members, who),
            config,
        ) by {
            if due(last, false, now, period) && who != last.candidate {
                assert(applicant_paid(record_of(before.members, who), config));
            }
        }
    }
}

/// Where the members and the challenges are paid for, the members after the walk over the
/// challenges are.
pub proof fn lemma_resolve_pass_paid(
    pass: Pass,
    records: Seq<ApplicationView>,
    config: Config,
    now: BlockNumber,
    period: BlockNumber,
)
    requires
        ordered(pass.members),
        forall|who: AccountId|
            listed(pass.members, who) ==> applicant_paid(
                #[trigger] record_of(pass.members, who),
                config,
            ),
        forall|i: int| 0 <= i < records.len() ==> applicant_paid(#[trigger] records[i], config),
    ensures
        forall|who: AccountId|
            listed(resolve_pass(pass, records, now, period).members, who) ==> applicant_paid(
                #[trigger] record_of(resolve_pass(pass, records, now, period).members, who),
                config,
            ),
    decreases records.len(),
{
    if records.len() > 0 {
        let front = records.drop_last();
        let last = records.last();
        assert forall|i: int| 0 <= i < front.len() implies applicant_paid(
            #[trigger] front[i],
            config,
        ) by {
            assert(front[i] == records[i]);
        }
        lemma_resolve_pass_paid(pass, front, config, now, period);
        lemma_resolve_pass_ordered(pass, front, now, period);
        let before = resolve_pass(pass, front, now, period);
        let after = resolve_pass(pass, records, now, period);
        lemma_put(before.members, last);
        lemma_without(before.members, last.candidate);
        assert(applicant_paid(records[records.len() - 1], config));
        assert forall|who: AccountId| listed(after.members, who) implies applicant_paid(
            #[trigger] record_of(after.members, who),
            config,
        ) by {
            if due(last, true, now, period) && who != last.candidate {
                assert(applicant_paid(record_of(before.members, who), config));
            }
        }
    }
}

/// The walk over the pending applications keeps the records paid for.
pub proof fn lemma_committed_keeps_funded(view: ModuleView, config: Config, now: BlockNumber)
    requires
        view.wf(),
        view.funded(config),
    ensures
        view.committed(config, now).funded(config),
{
    let period = config.finalize_application_period;
    let after = view.committed(config, now);
    lemma_unripe(view.applications, false, now, period);
    assert forall|i: int| 0 <= i < view.applications.len() implies applicant_paid(
        #[trigger] view.applications[i],
        config,
    ) by {
        lemma_record_at(view.applications, i);
        assert(applicant_paid(
            record_of(view.applications, view.applications[i].candidate),
            config,
        ));
    }
    lemma_commit_pass_paid(start(view.members), view.applications, config, now, period);
    assert forall|who: AccountId| listed(after.applications, who) implies applicant_paid(
        #[trigger] record_of(after.applications, who),
        config,
    ) by {
        assert(applicant_paid(record_of(view.applications, who), config));
    }
    assert forall|who: AccountId| listed(after.challenges, who) implies applicant_paid(
        #[trigger] record_of(after.challenges, who),
        config,
    ) && challenger_paid(record_of(after.challenges, who), config, listed(after.members, who)) by {
        assert(applicant_paid(record_of(view.challenges, who), config));
        lemma_commit_pass_members(start(view.members), view.applications, now, period, who);
    }
}

/// The walk over the challenges keeps the records paid for.
pub proof fn lemma_resolved_keeps_funded(view: ModuleView, config: Config, now: BlockNumber)
    requires
        view.wf(),
        view.funded(config),
    ensures
        view.resolved(config, now).funded(config),
{
    let period = config.finalize_challenge_period;
    let after = view.resolved(config, now);
    lemma_unripe(view.challenges, true, now, period);
    assert forall|i: int| 0 <= i < view.challenges.len() implies applicant_paid(
        #[trigger] view.challenges[i],
        config,
    ) by {
        lemma_record_at(view.challenges, i);
        assert(applicant_paid(record_of(view.challenges, view.challenges[i].candidate), config));
    }
    lemma_resolve_pass_paid(start(view.members), view.challenges, config, now, period);
    assert forall|who: AccountId| listed(after.challenges, who) implies applicant_paid(
        #[trigger] record_of(after.challenges, who),
        config,
    ) && challenger_paid(record_of(after.challenges, who), config, listed(after.members, who)) by {
        assert(applicant_paid(record_of(view.challenges, who), config));
        lemma_resolve_pass_members(start(view.members), view.challenges, now, period, who);
    }
}

/// The end of a block keeps the records paid for.
pub proof fn lemma_block_keeps_funded(view: ModuleView, config: Config, now: BlockNumber)
    requires
        view.wf(),
        view.funded(config),
    ensures
        view.finalized(config, now).funded(config),
{
    lemma_committed_keeps_funded(view, config, now);
    lemma_finalized_wf(view, config, now);
    lemma_resolved_keeps_funded(view.committed(config, now), config, now);
}

} // verus!
