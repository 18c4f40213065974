//! What the end of a block does to the collections and to the ledger.
//!
//! The pending applications are walked in ascending order of their candidates, and those
//! that have waited long enough are admitted as members. Then the challenges are walked in
//! the same order, and those that have run long enough are resolved: the candidate becomes
//! or stays a member where the application carried the vote, and stops being one where it
//! did not, and the stakes are settled on the ledger.

use crate::application::ApplicationView;
use crate::ledger::LedgerView;
use crate::permille::Permille;
use crate::registry::{
    lemma_put, lemma_rank, lemma_rank_is, lemma_without, listed, ordered, put, rank, record_of,
    without,
};
use crate::settlement::settle;
use crate::tcr::{Config, Event, ModuleView};
use crate::types::{AccountId, BlockNumber};
use vstd::prelude::*;

verus! {

/// Whether at block `now` at least `period` blocks have passed since block `since`.
pub open spec fn matured(since: BlockNumber, now: BlockNumber, period: BlockNumber) -> bool {
    now as int - since as int >= period as int
}

/// Whether at block `now` at least `period` blocks have passed since block `since`.
pub fn has_matured(since: BlockNumber, now: BlockNumber, period: BlockNumber) -> (yes: bool)
    ensures
        yes == matured(since, now, period),
{
    now >= since && now - since >= period
}

/// Whether a record is due at block `now`: a challenge once `period` blocks have passed since
/// it was contested, a pending application once they have passed since it was made.
pub open spec fn due(
    record: ApplicationView,
    contested: bool,
    now: BlockNumber,
    period: BlockNumber,
) -> bool {
    if contested {
        matured(record.challenged_block, now, period)
    } else {
        matured(record.created_block, now, period)
    }
}

/// The records that are not due, in their order.
pub open spec fn unripe(
    records: Seq<ApplicationView>,
    contested: bool,
    now: BlockNumber,
    period: BlockNumber,
) -> Seq<ApplicationView>
    decreases records.len(),
{
    if records.len() == 0 {
        Seq::empty()
    } else if due(records.last(), contested, now, period) {
        unripe(records.drop_last(), contested, now, period)
    } else {
        unripe(records.drop_last(), contested, now, period).push(records.last())
    }
}

/// What a walk over the records has done so far to the membership.
pub struct Pass {
    /// The members.
    pub members: Seq<ApplicationView>,
    /// The candidates that were admitted or confirmed, in the order of the walk.
    pub incoming: Seq<AccountId>,
    /// The members that were removed, in the order of the walk.
    pub outgoing: Seq<AccountId>,
    /// What is reported of the walk.
    pub events: Seq<Event>,
}

/// The beginning of a walk.
pub open spec fn start(members: Seq<ApplicationView>) -> Pass {
    Pass { members, incoming: Seq::empty(), outgoing: Seq::empty(), events: Seq::empty() }
}

/// A pending application that is due is admitted: its record becomes the candidate's record
/// among the members.
pub open spec fn accept(pass: Pass, record: ApplicationView) -> Pass {
    Pass {
        members: put(pass.members, record),
        incoming: pass.incoming.push(record.candidate),
        outgoing: pass.outgoing,
        events: pass.events.push(Event::ApplicationPassed(record.candidate)),
    }
}

/// The walk over the pending applications.
pub open spec fn commit_pass(
    pass: Pass,
    records: Seq<ApplicationView>,
    now: BlockNumber,
    period: BlockNumber,
) -> Pass
    decreases records.len(),
{
    if records.len() == 0 {
        pass
    } else {
        let before = commit_pass(pass, records.drop_last(), now, period);
        if due(records.last(), false, now, period) {
            accept(before, records.last())
        } else {
            before
        }
    }
}

/// A challenge that is due is resolved. Where the application carried the vote, its record
/// becomes the candidate's record among the members; where it did not, the candidate is
/// removed from the members if it was one.
pub open spec fn resolve(pass: Pass, record: ApplicationView) -> Pass {
    if record.carried() {
        Pass {
            members: put(pass.members, record),
            incoming: pass.incoming.push(record.candidate),
            outgoing: pass.outgoing,
            events: pass.events.push(Event::ChallengeAcceptedApplication(record.candidate)),
        }
    } else {
        Pass {
            members: without(pass.members, record.candidate),
            incoming: pass.incoming,
            outgoing: if listed(pass.members, record.candidate) {
                pass.outgoing.push(record.candidate)
            } else {
                pass.outgoing
            },
            events: pass.events.push(Event::ChallengeRefusedApplication(record.candidate)),
        }
    }
}

/// The walk over the challenges, as far as the membership goes.
pub open spec fn resolve_pass(
    pass: Pass,
    records: Seq<ApplicationView>,
    now: BlockNumber,
    period: BlockNumber,
) -> Pass
    decreases records.len(),
{
    if records.len() == 0 {
        pass
    } else {
        let before = resolve_pass(pass, records.drop_last(), now, period);
        if due(records.last(), true, now, period) {
            resolve(before, records.last())
        } else {
            before
        }
    }
}

/// The walk over the challenges, as far as the ledger goes: the stakes of every challenge
/// that is due are settled, one challenge after the other.
pub open spec fn settle_pass(
    ledger: LedgerView,
    records: Seq<ApplicationView>,
    rate: Permille,
    now: BlockNumber,
    period: BlockNumber,
) -> LedgerView
    decreases records.len(),
{
    if records.len() == 0 {
        ledger
    } else {
        let before = settle_pass(ledger, records.drop_last(), rate, now, period);
        if due(records.last(), true, now, period) {
            settle(before, rate, records.last()).ledger
        } else {
            before
        }
    }
}

impl ModuleView {
    /// The walk over the pending applications of these collections.
    pub open spec fn commit_walk(self, config: Config, now: BlockNumber) -> Pass {
        commit_pass(start(self.members), self.applications, now, config.finalize_application_period)
    }

    /// The collections after the walk over the pending applications.
    pub open spec fn committed(self, config: Config, now: BlockNumber) -> ModuleView {
        ModuleView {
            applications: unripe(
                self.applications,
                false,
                now,
                config.finalize_application_period,
            ),
            challenges: self.challenges,
            members: self.commit_walk(config, now).members,
        }
    }

    /// The walk over the challenges of these collections.
    pub open spec fn resolve_walk(self, config: Config, now: BlockNumber) -> Pass {
        resolve_pass(start(self.members), self.challenges, now, config.finalize_challenge_period)
    }

    /// The collections after the walk over the challenges.
    pub open spec fn resolved(self, config: Config, now: BlockNumber) -> ModuleView {
        ModuleView {
            applications: self.applications,
            challenges: unripe(self.challenges, true, now, config.finalize_challenge_period),
            members: self.resolve_walk(config, now).members,
        }
    }

    /// The collections after the end of block `now`: first the pending applications are
    /// walked, then the challenges.
    pub open spec fn finalized(self, config: Config, now: BlockNumber) -> ModuleView {
        self.committed(config, now).resolved(config, now)
    }

    /// The candidates that the end of block `now` admits or confirms: those of the pending
    /// applications first, then those of the challenges, each in ascending order.
    pub open spec fn incoming(self, config: Config, now: BlockNumber) -> Seq<AccountId> {
        self.commit_walk(config, now).incoming + self.committed(config, now).resolve_walk(
            config,
            now,
        ).incoming
    }

    /// The members that the end of block `now` removes, in ascending order.
    pub open spec fn outgoing(self, config: Config, now: BlockNumber) -> Seq<AccountId> {
        self.committed(config, now).resolve_walk(config, now).outgoing
    }

    /// What the end of block `now` reports.
    pub open spec fn events(self, config: Config, now: BlockNumber) -> Seq<Event> {
        self.commit_walk(config, now).events + self.committed(config, now).resolve_walk(
            config,
            now,
        ).events
    }

    /// The ledger after the end of block `now`.
    pub open spec fn settled(
        self,
        ledger: LedgerView,
        config: Config,
        now: BlockNumber,
    ) -> LedgerView {
        settle_pass(
            ledger,
            self.challenges,
            config.loosers_slash,
            now,
            config.finalize_challenge_period,
        )
    }
}

/// In ordered records, the record at a place is the record of its candidate.
pub proof fn lemma_record_at(records: Seq<ApplicationView>, at: int)
    requires
        ordered(records),
        0 <= at < records.len(),
    ensures
        listed(records, records[at].candidate),
        rank(records, records[at].candidate) == at,
        record_of(records, records[at].candidate) == records[at],
{
    let who = records[at].candidate;
    assert forall|i: int| 0 <= i < at implies records[i].candidate < who by {}
    assert forall|i: int| at <= i < records.len() implies records[i].candidate >= who by {
        if at < i {
            assert(records[at].candidate < records[i].candidate);
        }
    }
    lemma_rank_is(records, who, at);
    lemma_rank(records, who);
}

/// The records without the last are in order if all are, and keep their records.
pub proof fn lemma_front(records: Seq<ApplicationView>)
    requires
        ordered(records),
        records.len() > 0,
    ensures
        ordered(records.drop_last()),
        forall|who: AccountId|
            listed(records, who) <==> #[trigger] listed(records.drop_last(), who) || who
                == records.last().candidate,
        forall|who: AccountId| #[trigger]
            listed(records.drop_last(), who) ==> who < records.last().candidate && record_of(
                records.drop_last(),
                who,
            ) == record_of(records, who),
        record_of(records, records.last().candidate) == records.last(),
{
    let front = records.drop_last();
    let n = records.len() as int;
    assert(ordered(front)) by {
        assert forall|i: int, j: int| 0 <= i < j < front.len() implies front[i].candidate
            < front[j].candidate by {
            assert(records[i].candidate < records[j].candidate);
        }
    }
    lemma_record_at(records, n - 1);
    assert forall|who: AccountId|
        listed(records, who) <==> #[trigger] listed(front, who) || who
            == records.last().candidate by {
        if listed(records, who) {
            lemma_rank(records, who);
            let k = rank(records, who);
            if k < n - 1 {
                assert(front[k].candidate == who);
            }
        }
        if listed(front, who) {
            lemma_rank(front, who);
            let k = rank(front, who);
            assert(records[k].candidate == who);
        }
    }
    assert forall|who: AccountId| #[trigger] listed(front, who) implies who
        < records.last().candidate && record_of(front, who) == record_of(records, who) by {
        lemma_rank(front, who);
        let k = rank(front, who);
        assert(records[k] == front[k]);
        assert(records[k].candidate < records[n - 1].candidate);
        lemma_record_at(records, k);
    }
}

/// The records that are not due are in order, and are exactly the records of the candidates
/// whose record is not due.
pub proof fn lemma_unripe(
    records: Seq<ApplicationView>,
    contested: bool,
    now: BlockNumber,
    period: BlockNumber,
)
    requires
        ordered(records),
    ensures
        ordered(unripe(records, contested, now, period)),
        forall|who: AccountId| #[trigger]
            listed(unripe(records, contested, now, period), who) <==> listed(records, who) && !due(
                record_of(records, who),
                contested,
                now,
                period,
            ),
        forall|who: AccountId| #[trigger]
            listed(unripe(records, contested, now, period), who) ==> record_of(
                unripe(records, contested, now, period),
                who,
            ) == record_of(records, who),
    decreases records.len(),
{
    let kept = unripe(records, contested, now, period);
    if records.len() > 0 {
        let front = records.drop_last();
        let last = records.last();
        lemma_front(records);
        lemma_unripe(front, contested, now, period);
        let kept_front = unripe(front, contested, now, period);
        if due(last, contested, now, period) {
            assert forall|who: AccountId| #[trigger] listed(kept, who) <==> listed(records, who)
                && !due(record_of(records, who), contested, now, period) by {
                if listed(kept_front, who) {
                    assert(listed(front, who));
                }
                if listed(records, who) && !due(record_of(records, who), contested, now, period) {
                    assert(listed(front, who) || who == last.candidate);
                }
            }
            assert forall|who: AccountId| #[trigger] listed(kept, who) implies record_of(kept, who)
                == record_of(records, who) by {
                assert(listed(front, who));
            }
        } else {
            assert(ordered(kept)) by {
                assert forall|i: int, j: int| 0 <= i < j < kept.len() implies kept[i].candidate
                    < kept[j].candidate by {
                    if j == kept.len() - 1 {
                        assert(kept_front[i].candidate == kept_front[i].candidate);
                        assert(listed(kept_front, kept_front[i].candidate));
                        assert(listed(front, kept_front[i].candidate));
                    } else {
                        assert(kept_front[i].candidate < kept_front[j].candidate);
                    }
                }
            }
            lemma_record_at(kept, kept.len() - 1);
            assert(kept.drop_last() =~= kept_front);
            lemma_front(kept);
            assert forall|who: AccountId| #[trigger] listed(kept, who) <==> listed(records, who)
                && !due(record_of(records, who), contested, now, period) by {
                if listed(kept, who) {
                    assert(listed(kept_front, who) || who == last.candidate);
                    if listed(kept_front, who) {
                        assert(listed(front, who));
                    }
                }
                if listed(records, who) && !due(record_of(records, who), contested, now, period) {
                    assert(listed(front, who) || who == last.candidate);
                    if listed(front, who) {
                        assert(listed(kept_front, who));
                    }
                }
            }
            assert forall|who: AccountId| #[trigger] listed(kept, who) implies record_of(kept, who)
                == record_of(records, who) by {
                assert(listed(kept_front, who) || who == last.candidate);
                if listed(kept_front, who) {
                    assert(listed(front, who));
                }
            }
        }
    }
}

/// The walk over the pending applications leaves the members in order.
pub proof fn lemma_commit_pass_ordered(
    pass: Pass,
    records: Seq<ApplicationView>,
    now: BlockNumber,
    period: BlockNumber,
)
    requires
        ordered(pass.members),
    ensures
        ordered(commit_pass(pass, records, now, period).members),
    decreases records.len(),
{
    if records.len() > 0 {
        lemma_commit_pass_ordered(pass, records.drop_last(), now, period);
        lemma_put(commit_pass(pass, records.drop_last(), now, period).members, records.last());
    }
}

/// The walk over the challenges leaves the members in order.
pub proof fn lemma_resolve_pass_ordered(
    pass: Pass,
    records: Seq<ApplicationView>,
    now: BlockNumber,
    period: BlockNumber,
)
    requires
        ordered(pass.members),
    ensures
        ordered(resolve_pass(pass, records, now, period).members),
    decreases records.len(),
{
    if records.len() > 0 {
        lemma_resolve_pass_ordered(pass, records.drop_last(), now, period);
        let before = resolve_pass(pass, records.drop_last(), now, period);
        lemma_put(before.members, records.last());
        lemma_without(before.members, records.last().candidate);
    }
}

/// The end of a block keeps the collections well formed, and apart if they were.
pub proof fn lemma_finalized_wf(view: ModuleView, config: Config, now: BlockNumber)
    requires
        view.wf(),
    ensures
        view.committed(config, now).wf(),
        view.finalized(config, now).wf(),
        view.exclusive() ==> view.committed(config, now).exclusive() && view.finalized(
            config,
            now,
        ).exclusive(),
{
    let first = view.committed(config, now);
    lemma_unripe(view.applications, false, now, config.finalize_application_period);
    lemma_commit_pass_ordered(
        start(view.members),
        view.applications,
        now,
        config.finalize_application_period,
    );
    assert forall|who: AccountId| listed(first.applications, who) implies (#[trigger] record_of(
        first.applications,
        who,
    )).uncontested() by {
        assert(record_of(view.applications, who).uncontested());
    }
    assert(first.wf());
    let second = first.resolved(config, now);
    lemma_unripe(first.challenges, true, now, config.finalize_challenge_period);
    lemma_resolve_pass_ordered(
        start(first.members),
        first.challenges,
        now,
        config.finalize_challenge_period,
    );
    assert forall|who: AccountId| listed(second.challenges, who) implies (#[trigger] record_of(
        second.challenges,
        who,
    )).contested() by {
        assert(record_of(first.challenges, who).contested());
    }
    assert(second.wf());
    if view.exclusive() {
        assert forall|who: AccountId|
            !(listed(first.applications, who) && listed(first.challenges, who)) by {
            assert(!(listed(view.applications, who) && listed(view.challenges, who)));
        }
        assert forall|who: AccountId|
            !(listed(second.applications, who) && listed(second.challenges, who)) by {
            assert(!(listed(first.applications, who) && listed(first.challenges, who)));
        }
    }
}

/// After the walk over the pending applications, the members are those that were members
/// and the candidates whose application was due.
pub proof fn lemma_commit_pass_members(
    pass: Pass,
    records: Seq<ApplicationView>,
    now: BlockNumber,
    period: BlockNumber,
    who: AccountId,
)
    requires
        ordered(pass.members),
        ordered(records),
    ensures
        listed(commit_pass(pass, records, now, period).members, who) <==> listed(pass.members, who)
            || (listed(records, who) && due(record_of(records, who), false, now, period)),
    decreases records.len(),
{
    if records.len() > 0 {
        let front = records.drop_last();
        let last = records.last();
        lemma_front(records);
        lemma_commit_pass_members(pass, front, now, period, who);
        lemma_commit_pass_ordered(pass, front, now, period);
        let before = commit_pass(pass, front, now, period);
        lemma_put(before.members, last);
        if listed(front, who) {
            assert(who != last.candidate);
        }
    }
}

/// After the walk over the challenges, the members are the candidates whose challenge was
/// due and carried, and those that were members and did not lose a challenge that was due.
pub proof fn lemma_resolve_pass_members(
    pass: Pass,
    records: Seq<ApplicationView>,
    now: BlockNumber,
    period: BlockNumber,
    who: AccountId,
)
    requires
        ordered(pass.members),
        ordered(records),
    ensures
        listed(resolve_pass(pass, records, now, period).members, who) <==> (listed(records, who)
            && due(record_of(records, who), true, now, period) && record_of(
            records,
            who,
        ).carried()) || (listed(pass.members, who) && !(listed(records, who) && due(
            record_of(records, who),
            true,
            now,
            period,
        ) && !record_of(records, who).carried())),
    decreases records.len(),
{
    if records.len() > 0 {
        let front = records.drop_last();
        let last = records.last();
        lemma_front(records);
        lemma_resolve_pass_members(pass, front, now, period, who);
        lemma_resolve_pass_ordered(pass, front, now, period);
        let before = resolve_pass(pass, front, now, period);
        lemma_put(before.members, last);
        lemma_without(before.members, last.candidate);
        if listed(front, who) {
            assert(who != last.candidate);
        }
    }
}

impl ModuleView {
    /// Whether the end of block `now` admits `who` for an application that nobody contested.
    pub open spec fn admits(self, config: Config, now: BlockNumber, who: AccountId) -> bool {
        listed(self.applications, who) && due(
            record_of(self.applications, who),
            false,
            now,
            config.finalize_application_period,
        )
    }

    /// Whether the end of block `now` resolves a challenge of `who`.
    pub open spec fn resolves(self, config: Config, now: BlockNumber, who: AccountId) -> bool {
        listed(self.challenges, who) && due(
            record_of(self.challenges, who),
            true,
            now,
            config.finalize_challenge_period,
        )
    }

    /// Whether the end of block `now` resolves a challenge of `who` in favour of `who`.
    pub open spec fn confirms(self, config: Config, now: BlockNumber, who: AccountId) -> bool {
        self.resolves(config, now, who) && record_of(self.challenges, who).carried()
    }

    /// Whether the end of block `now` resolves a challenge of `who` against `who`.
    pub open spec fn rejects(self, config: Config, now: BlockNumber, who: AccountId) -> bool {
        self.resolves(config, now, who) && !record_of(self.challenges, who).carried()
    }
}

/// After the end of a block, an account is a member exactly if the block admitted it, or
/// resolved a challenge in its favour, or it was a member and the block did not resolve a
/// challenge against it.
pub proof fn lemma_members_after_block(
    view: ModuleView,
    config: Config,
    now: BlockNumber,
    who: AccountId,
)
    requires
        view.wf(),
        view.exclusive(),
    ensures
        listed(view.finalized(config, now).members, who) <==> view.admits(config, now, who)
            || view.confirms(config, now, who) || (listed(view.members, who) && !view.rejects(
            config,
            now,
            who,
        )),
{
    let first = view.committed(config, now);
    lemma_commit_pass_members(
        start(view.members),
        view.applications,
        now,
        config.finalize_application_period,
        who,
    );
    lemma_commit_pass_ordered(
        start(view.members),
        view.applications,
        now,
        config.finalize_application_period,
    );
    lemma_resolve_pass_members(
        start(first.members),
        first.challenges,
        now,
        config.finalize_challenge_period,
        who,
    );
    assert(!(listed(view.applications, who) && listed(view.challenges, who)));
}

} // verus!
