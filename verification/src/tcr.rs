//! The token curated registry: candidates stake a deposit to apply, challengers stake a
//! deposit to contest, voters stake on either side, and the end of a block turns what has
//! matured into members or into slashed and rewarded stakes.
//!
//! The registry owns three collections: the pending applications, the challenges and the
//! members. The ledger it reserves on and the subscriber it tells about the members are handed
//! to each operation.

use crate::application::{
    fresh, lemma_stake_in, lemma_stake_pushed, stake_sum, votes, Application, ApplicationView,
};
use crate::backing::{
    backed, lemma_block_keeps_backing, lemma_staked_put, lemma_staked_without, staked,
};
use crate::deposits::{
    lemma_apply_keeps_funded, lemma_challenge_keeps_funded, lemma_committed_keeps_funded,
    lemma_counter_keeps_funded, lemma_resolved_keeps_funded, lemma_vote_keeps_funded,
};
use crate::finalize::{
    commit_pass, has_matured, lemma_finalized_wf, lemma_record_at, lemma_unripe, resolve_pass,
    settle_pass, start, unripe,
};
use crate::ledger::{Ledger, LedgerView};
use crate::members::{ascending, sort_accounts, strictly_ascending, ChangeMembers, Notice};
use crate::permille::Permille;
use crate::registry::{
    apart, candidates, lemma_candidates_ascend, lemma_put, lemma_rank, lemma_without, listed,
    ordered, put, record_of, views, without, Registry,
};
use crate::settlement::{
    cut, opposing_of, settle_challenge, slash_looser, supporting_of, unreserve_for,
};
use crate::types::{AccountId, Balance, BlockNumber};
use vstd::prelude::*;

verus! {

/// The rules of a registry, fixed when it is made.
#[derive(Clone, Copy, Debug, PartialEq, Eq)]
pub struct Config {
    /// The least deposit of an application.
    pub minimum_application_amount: Balance,
    /// The least deposit of whoever contests a pending application.
    pub minimum_counter_amount: Balance,
    /// The least deposit of whoever challenges a member.
    pub minimum_challenge_amount: Balance,
    /// The number of blocks after which an application that nobody contested is admitted.
    pub finalize_application_period: BlockNumber,
    /// The number of blocks after which a challenge is resolved.
    pub finalize_challenge_period: BlockNumber,
    /// The share of a losing stake that is slashed.
    pub loosers_slash: Permille,
}

/// Why the registry refused a call.
#[derive(Clone, Copy, Debug, PartialEq, Eq)]
pub enum Error {
    /// An application of this account is pending already.
    ApplicationPending,
    /// An application of this account is being challenged.
    ApplicationChallenged,
    /// The account cannot pay the deposit.
    NotEnoughFunds,
    /// The deposit is below the minimum.
    DepositTooSmall,
    /// No pending application of the named account was found.
    ApplicationNotFound,
    /// No challenge of the named account was found.
    ChallengeNotFound,
    /// The named account is no member.
    MemberNotFound,
    /// The votes of one side would no longer fit a balance.
    VotesOverflow,
}

/// What the registry reports of a call or of the end of a block.
#[derive(Clone, Copy, Debug, PartialEq, Eq)]
pub enum Event {
    /// The account applied with the deposit.
    NewApplication(AccountId, Balance),
    /// The application of the first account was contested by the second with the deposit.
    ApplicationCountered(AccountId, AccountId, Balance),
    /// On the challenge of the first account the second voted with the deposit, in support
    /// where the flag is set.
    VoteRecorded(AccountId, AccountId, Balance, bool),
    /// The application of the account matured without being contested.
    ApplicationPassed(AccountId),
    /// The membership of the first account was challenged by the second with the deposit.
    ApplicationChallenged(AccountId, AccountId, Balance),
    /// The challenge of the account ended against it.
    ChallengeRefusedApplication(AccountId),
    /// The challenge of the account ended in its favour.
    ChallengeAcceptedApplication(AccountId),
}

/// The three collections of a registry.
pub struct ModuleView {
    pub applications: Seq<ApplicationView>,
    pub challenges: Seq<ApplicationView>,
    pub members: Seq<ApplicationView>,
}

impl ModuleView {
    /// The collections are in order, no pending application names a challenger or holds a
    /// vote, and every challenge names its challenger and has vote totals that agree with its
    /// votes.
    pub open spec fn wf(self) -> bool {
        &&& ordered(self.applications)
        &&& ordered(self.challenges)
        &&& ordered(self.members)
        &&& forall|who: AccountId|
            listed(self.applications, who) ==> (#[trigger] record_of(
                self.applications,
                who,
            )).uncontested()
        &&& forall|who: AccountId|
            listed(self.challenges, who) ==> (#[trigger] record_of(
                self.challenges,
                who,
            )).contested()
    }

    /// No candidate is both pending and challenged.
    pub open spec fn exclusive(self) -> bool {
        apart(self.applications, self.challenges)
    }

    /// Why `apply` refuses, if it does.
    pub open spec fn apply_refusal(
        self,
        config: Config,
        ledger: LedgerView,
        origin: AccountId,
        deposit: Balance,
    ) -> Option<Error> {
        if deposit < config.minimum_application_amount {
            Some(Error::DepositTooSmall)
        } else if listed(self.applications, origin) {
            Some(Error::ApplicationPending)
        } else if listed(self.challenges, origin) {
            Some(Error::ApplicationChallenged)
        } else if ledger.free(origin) < deposit {
            Some(Error::NotEnoughFunds)
        } else {
            None
        }
    }

    /// The collections after `origin` has applied.
    pub open spec fn applied(
        self,
        origin: AccountId,
        metadata: Seq<u8>,
        deposit: Balance,
        now: BlockNumber,
    ) -> Self {
        ModuleView {
            applications: put(self.applications, fresh(origin, metadata, deposit, now)),
            ..self
        }
    }

    /// Why `counter` refuses, if it does.
    pub open spec fn counter_refusal(
        self,
        config: Config,
        ledger: LedgerView,
        origin: AccountId,
        member: AccountId,
        deposit: Balance,
    ) -> Option<Error> {
        if deposit < config.minimum_counter_amount {
            Some(Error::DepositTooSmall)
        } else if !listed(self.applications, member) {
            Some(Error::ApplicationNotFound)
        } else if ledger.free(origin) < deposit {
            Some(Error::NotEnoughFunds)
        } else {
            None
        }
    }

    /// The collections after `origin` has contested the pending application of `member`.
    pub open spec fn countered(
        self,
        origin: AccountId,
        member: AccountId,
        deposit: Balance,
        now: BlockNumber,
    ) -> Self {
        ModuleView {
            applications: without(self.applications, member),
            challenges: put(
                self.challenges,
                record_of(self.applications, member).countered(origin, deposit, now),
            ),
            ..self
        }
    }

    /// The votes that the challenge of `member` holds on one side.
    pub open spec fn votes_on(self, member: AccountId, supporting: bool) -> nat {
        if supporting {
            votes(record_of(self.challenges, member).votes_for)
        } else {
            votes(record_of(self.challenges, member).votes_against)
        }
    }

    /// Why `vote` refuses, if it does.
    pub open spec fn vote_refusal(
        self,
        ledger: LedgerView,
        origin: AccountId,
        member: AccountId,
        supporting: bool,
        deposit: Balance,
    ) -> Option<Error> {
        if !listed(self.challenges, member) {
            Some(Error::ChallengeNotFound)
        } else if ledger.free(origin) < deposit {
            Some(Error::NotEnoughFunds)
        } else if self.votes_on(member, supporting) + deposit > u64::MAX {
            Some(Error::VotesOverflow)
        } else {
            None
        }
    }

    /// The collections after `origin` has voted on the challenge of `member`.
    pub open spec fn voted(
        self,
        origin: AccountId,
        member: AccountId,
        supporting: bool,
        deposit: Balance,
    ) -> Self {
        ModuleView {
            challenges: put(
                self.challenges,
                record_of(self.challenges, member).voted(origin, supporting, deposit),
            ),
            ..self
        }
    }

    /// Why `challenge` refuses, if it does.
    pub open spec fn challenge_refusal(
        self,
        config: Config,
        ledger: LedgerView,
        origin: AccountId,
        member: AccountId,
        deposit: Balance,
    ) -> Option<Error> {
        if deposit < config.minimum_challenge_amount {
            Some(Error::DepositTooSmall)
        } else if !listed(self.members, member) {
            Some(Error::MemberNotFound)
        } else if ledger.free(origin) < deposit {
            Some(Error::NotEnoughFunds)
        } else {
            None
        }
    }

    /// The collections after `origin` has challenged the membership of `member`.
    pub open spec fn challenged(
        self,
        origin: AccountId,
        member: AccountId,
        deposit: Balance,
        now: BlockNumber,
    ) -> Self {
        ModuleView {
            challenges: put(
                self.challenges,
                record_of(self.members, member).challenged(origin, deposit, now),
            ),
            ..self
        }
    }
}

/// What the end of a block did to the membership, and what it reports.
#[derive(Clone, Debug, PartialEq, Eq)]
pub struct Finalization {
    /// The candidates that were admitted or confirmed, in ascending order.
    pub incoming: Vec<AccountId>,
    /// The members that were removed, in ascending order.
    pub outgoing: Vec<AccountId>,
    /// The reports: first of the pending applications that were admitted, then of the
    /// challenges that were resolved, each in ascending order of the candidates.
    pub events: Vec<Event>,
}

/// A token curated registry.
#[derive(Clone, Debug, PartialEq, Eq)]
pub struct Module {
    pub(crate) config: Config,
    pub(crate) applications: Registry,
    pub(crate) challenges: Registry,
    pub(crate) members: Registry,
}

impl View for Module {
    type V = ModuleView;

    closed spec fn view(&self) -> ModuleView {
        ModuleView {
            applications: self.applications@,
            challenges: self.challenges@,
            members: self.members@,
        }
    }
}

impl Module {
    /// The rules of this registry.
    pub closed spec fn settings(&self) -> Config {
        self.config
    }

    /// The registry's invariant, which every operation keeps.
    pub closed spec fn wf(&self) -> bool {
        self@.wf()
    }

    /// A well-formed registry has well-formed collections.
    pub proof fn lemma_wf(&self)
        requires
            self.wf(),
        ensures
            self@.wf(),
    {
    }

    /// A registry without records.
    pub fn new(config: Config) -> (module: Self)
        ensures
            module.wf(),
            module.settings() == config,
            module@.applications.len() == 0,
            module@.challenges.len() == 0,
            module@.members.len() == 0,
    {
        Module {
            config,
            applications: Registry::new(),
            challenges: Registry::new(),
            members: Registry::new(),
        }
    }

    /// The rules of this registry.
    pub fn config(&self) -> (config: Config)
        ensures
            config == self.settings(),
    {
        self.config
    }

    /// The pending application of `who`, if there is one.
    pub fn applications(&self, who: AccountId) -> (found: Option<&Application>)
        requires
            self.wf(),
        ensures
            found is Some <==> listed(self@.applications, who),
            found matches Some(application) ==> application@ == record_of(self@.applications, who),
    {
        self.applications.get(who)
    }

    /// The challenge of `who`, if there is one.
    pub fn challenges(&self, who: AccountId) -> (found: Option<&Application>)
        requires
            self.wf(),
        ensures
            found is Some <==> listed(self@.challenges, who),
            found matches Some(application) ==> application@ == record_of(self@.challenges, who),
    {
        self.challenges.get(who)
    }

    /// The record under which `who` is a member, if it is one.
    pub fn members(&self, who: AccountId) -> (found: Option<&Application>)
        requires
            self.wf(),
        ensures
            found is Some <==> listed(self@.members, who),
            found matches Some(application) ==> application@ == record_of(self@.members, who),
    {
        self.members.get(who)
    }

    /// Reserves `amount` from `who`, if the free balance covers it.
    pub fn reserve_for<L: Ledger>(ledger: &mut L, who: AccountId, amount: Balance) -> (outcome:
        Result<(), Error>)
        requires
            old(ledger).wf(),
        ensures
            final(ledger).wf(),
            outcome is Ok <==> amount <= old(ledger)@.free(who),
            outcome is Ok ==> final(ledger)@ == old(ledger)@.reserve(who, amount as nat),
            outcome is Err ==> outcome == Err::<(), Error>(Error::NotEnoughFunds) && final(ledger)@
                == old(ledger)@,
    {
        if !ledger.can_reserve(who, amount) {
            return Err(Error::NotEnoughFunds);
        }
        match ledger.reserve(who, amount) {
            Ok(()) => Ok(()),
            Err(_) => Err(Error::NotEnoughFunds),
        }
    }

    /// Releases up to `amount` of what `who` has reserved. A release never fails: what is
    /// not reserved is not released.
    pub fn unreserve_for<L: Ledger>(ledger: &mut L, who: AccountId, amount: Balance) -> (outcome:
        Result<(), Error>)
        requires
            old(ledger).wf(),
        ensures
            final(ledger).wf(),
            outcome is Ok,
            final(ledger)@ == old(ledger)@.unreserve(who, amount as nat),
    {
        unreserve_for(ledger, who, amount);
        Ok(())
    }

    /// Slashes from `who` this registry's share of a losing stake of `amount`, if the free
    /// balance of `who` covers it, and returns what was slashed.
    pub fn slash_looser<L: Ledger>(
        &self,
        ledger: &mut L,
        who: AccountId,
        amount: Balance,
    ) -> (slashed: Balance)
        requires
            old(ledger).wf(),
        ensures
            final(ledger).wf(),
            slashed == if cut(self.settings().loosers_slash, amount) <= old(ledger)@.free(who) {
                cut(self.settings().loosers_slash, amount)
            } else {
                0
            },
            final(ledger)@ == if cut(self.settings().loosers_slash, amount) <= old(ledger)@.free(
                who,
            ) {
                old(ledger)@.slash(who, cut(self.settings().loosers_slash, amount))
            } else {
                old(ledger)@
            },
    {
        slash_looser(ledger, self.config.loosers_slash, who, amount)
    }

    /// The number of tokens in support of an application.
    pub fn get_supporting(application: &Application) -> (tokens: u128)
        ensures
            tokens == application@.supporting(),
    {
        supporting_of(application)
    }

    /// The number of tokens in opposition to an application.
    pub fn get_opposing(application: &Application) -> (tokens: u128)
        ensures
            tokens == application@.opposing(),
    {
        opposing_of(application)
    }

    /// A vote total with one more vote, unless it would no longer fit a balance.
    pub fn helper_vote_increment(src_votes: Option<Balance>, add_votes: Balance) -> (outcome:
        Result<Balance, Error>)
        ensures
            outcome is Ok <==> votes(src_votes) + add_votes <= u64::MAX,
            outcome matches Ok(total) ==> total == votes(src_votes) + add_votes,
            outcome is Err ==> outcome == Err::<Balance, Error>(Error::VotesOverflow),
    {
        let current: Balance = match src_votes {
            Some(votes) => votes,
            None => 0,
        };
        match current.checked_add(add_votes) {
            Some(total) => Ok(total),
            None => Err(Error::VotesOverflow),
        }
    }

    /// Applies for membership: reserves `deposit` from `origin` and records the application.
    pub fn apply<L: Ledger>(
        &mut self,
        ledger: &mut L,
        origin: AccountId,
        metadata: Vec<u8>,
        deposit: Balance,
        now: BlockNumber,
    ) -> (outcome: Result<Event, Error>)
        requires
            old(self).wf(),
            old(ledger).wf(),
        ensures
            final(self).wf(),
            final(ledger).wf(),
            final(self).settings() == old(self).settings(),
            (match outcome {
                Ok(event) => {
                    &&& old(self)@.apply_refusal(
                        old(self).settings(),
                        old(ledger)@,
                        origin,
                        deposit,
                    ) is None
                    &&& event == Event::NewApplication(origin, deposit)
                    &&& final(self)@ == old(self)@.applied(origin, metadata@, deposit, now)
                    &&& final(ledger)@ == old(ledger)@.reserve(origin, deposit as nat)
                },
                Err(error) => {
                    &&& old(self)@.apply_refusal(
                        old(self).settings(),
                        old(ledger)@,
                        origin,
                        deposit,
                    ) == Some(error)
                    &&& final(self)@ == old(self)@
                    &&& final(ledger)@ == old(ledger)@
                },
            }),
            old(self)@.exclusive() ==> final(self)@.exclusive(),
            old(self)@.funded(old(self).settings()) ==> final(self)@.funded(
                old(self).settings(),
            ),
            backed(old(self)@.applications, old(self)@.challenges, old(ledger)@) ==> backed(
                final(self)@.applications,
                final(self)@.challenges,
                final(ledger)@,
            ),
    {
        if deposit < self.config.minimum_application_amount {
            return Err(Error::DepositTooSmall);
        }
        if self.applications.contains_key(origin) {
            return Err(Error::ApplicationPending);
        }
        if self.challenges.contains_key(origin) {
            return Err(Error::ApplicationChallenged);
        }
        match Self::reserve_for(ledger, origin, deposit) {
            Ok(()) => {},
            Err(error) => {
                return Err(error);
            },
        }
        let application = Application::new(origin, metadata, deposit, now);
        proof {
            lemma_apply_keeps_wf(old(self)@, origin, metadata@, deposit, now);
            if old(self)@.funded(self.config) {
                lemma_apply_keeps_funded(old(self)@, self.config, origin, metadata@, deposit, now);
            }
            if backed(old(self)@.applications, old(self)@.challenges, old(ledger)@) {
                lemma_apply_keeps_backing(
                    old(self)@,
                    old(ledger)@,
                    origin,
                    metadata@,
                    deposit,
                    now,
                );
            }
        }
        self.applications.insert(application);
        Ok(Event::NewApplication(origin, deposit))
    }

    /// Contests the pending application of `member`: reserves `deposit` from `origin` and
    /// turns the application into a challenge.
    pub fn counter<L: Ledger>(
        &mut self,
        ledger: &mut L,
        origin: AccountId,
        member: AccountId,
        deposit: Balance,
        now: BlockNumber,
    ) -> (outcome: Result<Event, Error>)
        requires
            old(self).wf(),
            old(ledger).wf(),
        ensures
            final(self).wf(),
            final(ledger).wf(),
            final(self).settings() == old(self).settings(),
            (match outcome {
                Ok(event) => {
                    &&& old(self)@.counter_refusal(
                        old(self).settings(),
                        old(ledger)@,
                        origin,
                        member,
                        deposit,
                    ) is None
                    &&& event == Event::ApplicationCountered(member, origin, deposit)
                    &&& final(self)@ == old(self)@.countered(origin, member, deposit, now)
                    &&& final(ledger)@ == old(ledger)@.reserve(origin, deposit as nat)
                },
                Err(error) => {
                    &&& old(self)@.counter_refusal(
                        old(self).settings(),
                        old(ledger)@,
                        origin,
                        member,
                        deposit,
                    ) == Some(error)
                    &&& final(self)@ == old(self)@
                    &&& final(ledger)@ == old(ledger)@
                },
            }),
            old(self)@.exclusive() ==> final(self)@.exclusive(),
            old(self)@.funded(old(self).settings()) ==> final(self)@.funded(
                old(self).settings(),
            ),
            old(self)@.exclusive() && backed(
                old(self)@.applications,
                old(self)@.challenges,
                old(ledger)@,
            ) ==> backed(final(self)@.applications, final(self)@.challenges, final(ledger)@),
    {
        if deposit < self.config.minimum_counter_amount {
            return Err(Error::DepositTooSmall);
        }
        if !self.applications.contains_key(member) {
            return Err(Error::ApplicationNotFound);
        }
        match Self::reserve_for(ledger, origin, deposit) {
            Ok(()) => {},
            Err(error) => {
                return Err(error);
            },
        }
        proof {
            lemma_counter_keeps_wf(old(self)@, origin, member, deposit, now);
            if old(self)@.funded(self.config) {
                lemma_counter_keeps_funded(old(self)@, self.config, origin, member, deposit, now);
            }
            if old(self)@.exclusive() && backed(
                old(self)@.applications,
                old(self)@.challenges,
                old(ledger)@,
            ) {
                lemma_counter_keeps_backing(old(self)@, old(ledger)@, origin, member, deposit, now);
            }
        }
        match self.applications.remove(member) {
            Some(taken) => {
                let mut application = taken;
                application.challenger = Some(origin);
                application.challenger_deposit = Some(deposit);
                application.challenged_block = now;
                self.challenges.insert(application);
            },
            None => {},
        }
        Ok(Event::ApplicationCountered(member, origin, deposit))
    }

    /// Votes on the challenge of `member`: reserves `deposit` from `origin` and adds the
    /// vote to the side that `supporting` names.
    pub fn vote<L: Ledger>(
        &mut self,
        ledger: &mut L,
        origin: AccountId,
        member: AccountId,
        supporting: bool,
        deposit: Balance,
    ) -> (outcome: Result<Event, Error>)
        requires
            old(self).wf(),
            old(ledger).wf(),
        ensures
            final(self).wf(),
            final(ledger).wf(),
            final(self).settings() == old(self).settings(),
            (match outcome {
                Ok(event) => {
                    &&& old(self)@.vote_refusal(old(ledger)@, origin, member, supporting, deposit)
                        is None
                    &&& event == Event::VoteRecorded(member, origin, deposit, supporting)
                    &&& final(self)@ == old(self)@.voted(origin, member, supporting, deposit)
                    &&& final(ledger)@ == old(ledger)@.reserve(origin, deposit as nat)
                },
                Err(error) => {
                    &&& old(self)@.vote_refusal(old(ledger)@, origin, member, supporting, deposit)
                        == Some(error)
                    &&& final(self)@ == old(self)@
                    &&& final(ledger)@ == old(ledger)@
                },
            }),
            old(self)@.exclusive() ==> final(self)@.exclusive(),
            old(self)@.funded(old(self).settings()) ==> final(self)@.funded(
                old(self).settings(),
            ),
            backed(old(self)@.applications, old(self)@.challenges, old(ledger)@) ==> backed(
                final(self)@.applications,
                final(self)@.challenges,
                final(ledger)@,
            ),
    {
        let mut application = match self.challenges.get(member) {
            Some(found) => found.clone(),
            None => {
                return Err(Error::ChallengeNotFound);
            },
        };
        if !ledger.can_reserve(origin, deposit) {
            return Err(Error::NotEnoughFunds);
        }
        let total = match Self::helper_vote_increment(
            if supporting {
                application.votes_for
            } else {
                application.votes_against
            },
            deposit,
        ) {
            Ok(total) => total,
            Err(error) => {
                return Err(error);
            },
        };
        match Self::reserve_for(ledger, origin, deposit) {
            Ok(()) => {},
            Err(error) => {
                return Err(error);
            },
        }
        if supporting {
            application.votes_for = Some(total);
            application.voters_for.push((origin, deposit));
        } else {
            application.votes_against = Some(total);
            application.voters_against.push((origin, deposit));
        }
        proof {
            lemma_vote_keeps_wf(old(self)@, origin, member, supporting, deposit);
            if old(self)@.funded(self.config) {
                lemma_vote_keeps_funded(
                    old(self)@,
                    self.config,
                    origin,
                    member,
                    supporting,
                    deposit,
                );
            }
            if backed(old(self)@.applications, old(self)@.challenges, old(ledger)@) {
                lemma_vote_keeps_backing(
                    old(self)@,
                    old(ledger)@,
                    origin,
                    member,
                    supporting,
                    deposit,
                );
            }
        }
        self.challenges.insert(application);
        Ok(Event::VoteRecorded(member, origin, deposit, supporting))
    }

    /// Challenges the membership of `member`: reserves `deposit` from `origin` and opens a
    /// challenge on the member's record, with no votes. The member stays a member until the
    /// challenge is resolved.
    pub fn challenge<L: Ledger>(
        &mut self,
        ledger: &mut L,
        origin: AccountId,
        member: AccountId,
        deposit: Balance,
        now: BlockNumber,
    ) -> (outcome: Result<Event, Error>)
        requires
            old(self).wf(),
            old(ledger).wf(),
        ensures
            final(self).wf(),
            final(ledger).wf(),
            final(self).settings() == old(self).settings(),
            (match outcome {
                Ok(event) => {
                    &&& old(self)@.challenge_refusal(
                        old(self).settings(),
                        old(ledger)@,
                        origin,
                        member,
                        deposit,
                    ) is None
                    &&& event == Event::ApplicationChallenged(member, origin, deposit)
                    &&& final(self)@ == old(self)@.challenged(origin, member, deposit, now)
                    &&& final(ledger)@ == old(ledger)@.reserve(origin, deposit as nat)
                },
                Err(error) => {
                    &&& old(self)@.challenge_refusal(
                        old(self).settings(),
                        old(ledger)@,
                        origin,
                        member,
                        deposit,
                    ) == Some(error)
                    &&& final(self)@ == old(self)@
                    &&& final(ledger)@ == old(ledger)@
                },
            }),
            old(self)@.exclusive() && !listed(old(self)@.applications, member)
                ==> final(self)@.exclusive(),
            old(self)@.funded(old(self).settings()) ==> final(self)@.funded(
                old(self).settings(),
            ),
            outcome is Ok && !listed(old(self)@.challenges, member) && record_of(
                old(self)@.members,
                member,
            ).candidate_deposit == 0 && backed(
                old(self)@.applications,
                old(self)@.challenges,
                old(ledger)@,
            ) ==> backed(final(self)@.applications, final(self)@.challenges, final(ledger)@),
    {
        if deposit < self.config.minimum_challenge_amount {
            return Err(Error::DepositTooSmall);
        }
        let mut application = match self.members.get(member) {
            Some(found) => found.clone(),
            None => {
                return Err(Error::MemberNotFound);
            },
        };
        match Self::reserve_for(ledger, origin, deposit) {
            Ok(()) => {},
            Err(error) => {
                return Err(error);
            },
        }
        application.challenger = Some(origin);
        application.challenger_deposit = Some(deposit);
        application.challenged_block = now;
        application.votes_for = None;
        application.voters_for = Vec::new();
        application.votes_against = None;
        application.voters_against = Vec::new();
        proof {
            lemma_challenge_keeps_wf(old(self)@, origin, member, deposit, now);
            if old(self)@.funded(self.config) {
                lemma_challenge_keeps_funded(
                    old(self)@,
                    self.config,
                    origin,
                    member,
                    deposit,
                    now,
                );
            }
            if !listed(old(self)@.challenges, member) && record_of(
                old(self)@.members,
                member,
            ).candidate_deposit == 0 && backed(
                old(self)@.applications,
                old(self)@.challenges,
                old(ledger)@,
            ) {
                lemma_challenge_keeps_backing(
                    old(self)@,
                    old(ledger)@,
                    origin,
                    member,
                    deposit,
                    now,
                );
            }
            assert(application@ =~= record_of(old(self)@.members, member).challenged(
                origin,
                deposit,
                now,
            ));
        }
        self.challenges.insert(application);
        Ok(Event::ApplicationChallenged(member, origin, deposit))
    }

    /// Walks the pending applications and admits those that have waited out the period.
    /// Returns the candidates that were admitted and the reports, in the order of the walk.
    pub fn commit_applications(&mut self, block: BlockNumber) -> (outcome: (
        Vec<AccountId>,
        Vec<Event>,
    ))
        requires
            old(self).wf(),
        ensures
            final(self).wf(),
            final(self).settings() == old(self).settings(),
            final(self)@ == old(self)@.committed(old(self).settings(), block),
            outcome.0@ == old(self)@.commit_walk(old(self).settings(), block).incoming,
            outcome.1@ == old(self)@.commit_walk(old(self).settings(), block).events,
            old(self)@.exclusive() ==> final(self)@.exclusive(),
            old(self)@.funded(old(self).settings()) ==> final(self)@.funded(
                old(self).settings(),
            ),
    {
        let period = self.config.finalize_application_period;
        let mut new_members: Vec<AccountId> = Vec::new();
        let mut events: Vec<Event> = Vec::new();
        let mut kept: Vec<Application> = Vec::new();
        let count = self.applications.len();
        let ghost records = self.applications@;
        let ghost begin = start(self.members@);
        let mut i: usize = 0;
        proof {
            assert(views(kept@) =~= unripe(records.take(0), false, block, period));
        }
        while i < count
            invariant
                i <= count,
                count == records.len(),
                records == old(self)@.applications,
                begin == start(old(self)@.members),
                period == old(self).config.finalize_application_period,
                self.applications@ == records,
                self.challenges@ == old(self)@.challenges,
                self.config == old(self).config,
                self.members.wf(),
                views(kept@) == unripe(records.take(i as int), false, block, period),
                self.members@ == commit_pass(begin, records.take(i as int), block, period).members,
                new_members@ == commit_pass(begin, records.take(i as int), block, period).incoming,
                events@ == commit_pass(begin, records.take(i as int), block, period).events,
            decreases count - i,
        {
            let record = self.applications.entry(i);
            proof {
                assert(records.take(i + 1).drop_last() =~= records.take(i as int));
                assert(records.take(i + 1).last() == records[i as int]);
            }
            if has_matured(record.created_block, block, period) {
                let account = record.candidate;
                let admitted = record.clone();
                self.members.insert(admitted);
                new_members.push(account);
                events.push(Event::ApplicationPassed(account));
            } else {
                let still = record.clone();
                kept.push(still);
                proof {
                    assert(views(kept@) =~= unripe(records.take(i + 1), false, block, period));
                }
            }
            i += 1;
        }
        proof {
            assert(records.take(count as int) =~= records);
            lemma_unripe(records, false, block, period);
            lemma_finalized_wf(old(self)@, old(self).config, block);
            if old(self)@.funded(old(self).config) {
                lemma_committed_keeps_funded(old(self)@, old(self).config, block);
            }
        }
        self.applications = Registry::from_ordered(kept);
        (new_members, events)
    }

    /// Walks the challenges and resolves those that have run for the period: settles the
    /// stakes on the ledger and admits, confirms or removes the candidate. Returns the
    /// candidates that were admitted or confirmed, the members that were removed and the
    /// reports, each in the order of the walk.
    pub fn resolve_challenges<L: Ledger>(&mut self, ledger: &mut L, block: BlockNumber) -> (outcome:
        (Vec<AccountId>, Vec<AccountId>, Vec<Event>))
        requires
            old(self).wf(),
            old(ledger).wf(),
        ensures
            final(self).wf(),
            final(ledger).wf(),
            final(self).settings() == old(self).settings(),
            final(self)@ == old(self)@.resolved(old(self).settings(), block),
            final(ledger)@ == old(self)@.settled(old(ledger)@, old(self).settings(), block),
            outcome.0@ == old(self)@.resolve_walk(old(self).settings(), block).incoming,
            outcome.1@ == old(self)@.resolve_walk(old(self).settings(), block).outgoing,
            outcome.2@ == old(self)@.resolve_walk(old(self).settings(), block).events,
            old(self)@.exclusive() ==> final(self)@.exclusive(),
            old(self)@.funded(old(self).settings()) ==> final(self)@.funded(
                old(self).settings(),
            ),
    {
        let period = self.config.finalize_challenge_period;
        let rate = self.config.loosers_slash;
        let mut new_members: Vec<AccountId> = Vec::new();
        let mut old_members: Vec<AccountId> = Vec::new();
        let mut events: Vec<Event> = Vec::new();
        let mut kept: Vec<Application> = Vec::new();
        let count = self.challenges.len();
        let ghost records = self.challenges@;
        let ghost begin = start(self.members@);
        let mut i: usize = 0;
        proof {
            assert(views(kept@) =~= unripe(records.take(0), true, block, period));
        }
        while i < count
            invariant
                i <= count,
                count == records.len(),
                records == old(self)@.challenges,
                begin == start(old(self)@.members),
                period == old(self).config.finalize_challenge_period,
                rate == old(self).config.loosers_slash,
                self.challenges@ == records,
                self.applications@ == old(self)@.applications,
                self.config == old(self).config,
                self.members.wf(),
                ledger.wf(),
                views(kept@) == unripe(records.take(i as int), true, block, period),
                self.members@ == resolve_pass(begin, records.take(i as int), block, period).members,
                new_members@ == resolve_pass(begin, records.take(i as int), block, period).incoming,
                old_members@ == resolve_pass(begin, records.take(i as int), block, period).outgoing,
                events@ == resolve_pass(begin, records.take(i as int), block, period).events,
                ledger@ == settle_pass(old(ledger)@, records.take(i as int), rate, block, period),
            decreases count - i,
        {
            let record = self.challenges.entry(i);
            proof {
                assert(records.take(i + 1).drop_last() =~= records.take(i as int));
                assert(records.take(i + 1).last() == records[i as int]);
            }
            if has_matured(record.challenged_block, block, period) {
                let account = record.candidate;
                if supporting_of(record) > opposing_of(record) {
                    let confirmed = record.clone();
                    self.members.insert(confirmed);
                    new_members.push(account);
                    events.push(Event::ChallengeAcceptedApplication(account));
                } else {
                    if self.members.contains_key(account) {
                        let _ = self.members.remove(account);
                        old_members.push(account);
                    } else {
                        proof {
                            assert(without(self.members@, account) == self.members@);
                        }
                    }
                    events.push(Event::ChallengeRefusedApplication(account));
                }
                let _ = settle_challenge(ledger, rate, record);
            } else {
                let still = record.clone();
                kept.push(still);
                proof {
                    assert(views(kept@) =~= unripe(records.take(i + 1), true, block, period));
                }
            }
            i += 1;
        }
        proof {
            assert(records.take(count as int) =~= records);
            lemma_unripe(records, true, block, period);
            lemma_resolved_wf(old(self)@, old(self).config, block);
            if old(self)@.funded(old(self).config) {
                lemma_resolved_keeps_funded(old(self)@, old(self).config, block);
            }
        }
        self.challenges = Registry::from_ordered(kept);
        (new_members, old_members, events)
    }

    /// Tells the subscriber the membership, if a candidate came in or a member went out: the
    /// two lists as they are, and the members in strictly ascending order.
    pub fn notify_members_change<S: ChangeMembers>(
        &self,
        sink: &mut S,
        new_members: &Vec<AccountId>,
        old_members: &Vec<AccountId>,
    )
        requires
            self.wf(),
        ensures
            strictly_ascending(candidates(self@.members)),
            new_members@.len() > 0 || old_members@.len() > 0 ==> final(sink).members()
                == candidates(self@.members) && final(sink).notices() == old(sink).notices().push(
                (Notice {
                    incoming: new_members@,
                    outgoing: old_members@,
                    new: candidates(self@.members),
                }),
            ),
            new_members@.len() == 0 && old_members@.len() == 0 ==> *final(sink) == *old(sink),
    {
        proof {
            lemma_candidates_ascend(self.members@);
        }
        if new_members.len() > 0 || old_members.len() > 0 {
            let sorted_members = self.members.keys();
            sink.change_members_sorted(
                new_members.as_slice(),
                old_members.as_slice(),
                sorted_members.as_slice(),
            );
        }
    }

    /// Ends block `block`: admits the pending applications that have waited out their
    /// period, resolves the challenges that have run for theirs, and tells the subscriber
    /// the membership if it changed.
    pub fn on_finalize<L: Ledger, S: ChangeMembers>(
        &mut self,
        ledger: &mut L,
        sink: &mut S,
        block: BlockNumber,
    ) -> (report: Finalization)
        requires
            old(self).wf(),
            old(ledger).wf(),
        ensures
            final(self).wf(),
            final(ledger).wf(),
            final(self).settings() == old(self).settings(),
            final(self)@ == old(self)@.finalized(old(self).settings(), block),
            final(ledger)@ == old(self)@.settled(old(ledger)@, old(self).settings(), block),
            ascending(report.incoming@),
            report.incoming@.to_multiset() == old(self)@.incoming(
                old(self).settings(),
                block,
            ).to_multiset(),
            ascending(report.outgoing@),
            report.outgoing@.to_multiset() == old(self)@.outgoing(
                old(self).settings(),
                block,
            ).to_multiset(),
            strictly_ascending(candidates(final(self)@.members)),
            report.events@ == old(self)@.events(old(self).settings(), block),
            report.incoming@.len() > 0 || report.outgoing@.len() > 0 ==> final(sink).members()
                == candidates(final(self)@.members) && final(sink).notices() == old(
                sink,
            ).notices().push(
                (Notice {
                    incoming: report.incoming@,
                    outgoing: report.outgoing@,
                    new: candidates(final(self)@.members),
                }),
            ),
            report.incoming@.len() == 0 && report.outgoing@.len() == 0 ==> *final(sink) == *old(
                sink,
            ),
            old(self)@.exclusive() ==> final(self)@.exclusive(),
            old(self)@.funded(old(self).settings()) ==> final(self)@.funded(
                old(self).settings(),
            ),
            old(self)@.admits_no_deposit(old(self).settings(), block) && backed(
                old(self)@.applications,
                old(self)@.challenges,
                old(ledger)@,
            ) ==> backed(final(self)@.applications, final(self)@.challenges, final(ledger)@),
    {
        proof {
            if old(self)@.admits_no_deposit(old(self).settings(), block) && backed(
                old(self)@.applications,
                old(self)@.challenges,
                old(ledger)@,
            ) {
                lemma_block_keeps_backing(old(self)@, old(ledger)@, old(self).settings(), block);
            }
        }
        let (mut new_1, mut events) = self.commit_applications(block);
        let (mut new_2, old_2, mut events_2) = self.resolve_challenges(ledger, block);
        new_1.append(&mut new_2);
        events.append(&mut events_2);
        let incoming = sort_accounts(new_1.as_slice());
        let outgoing = sort_accounts(old_2.as_slice());
        self.notify_members_change(sink, &incoming, &outgoing);
        Finalization { incoming, outgoing, events }
    }

    /// The registry that holds the given records, if they make a well-formed registry: each
    /// collection in strictly ascending order of the candidates, no pending application with
    /// a challenger or a vote, every challenge with its challenger, the deposit and vote
    /// totals that agree with the votes.
    pub fn from_storage(
        config: Config,
        applications: Vec<Application>,
        challenges: Vec<Application>,
        members: Vec<Application>,
    ) -> (made: Option<Self>)
        ensures
            made is Some <==> (ModuleView {
                applications: views(applications@),
                challenges: views(challenges@),
                members: views(members@),
            }).wf(),
            made matches Some(module) ==> module.wf() && module.settings() == config && module@
                == (ModuleView {
                applications: views(applications@),
                challenges: views(challenges@),
                members: views(members@),
            }),
    {
        let mut i: usize = 0;
        while i < applications.len()
            invariant
                i <= applications.len(),
                forall|j: int| 0 <= j < i ==> (#[trigger] views(applications@)[j]).uncontested(),
            decreases applications.len() - i,
        {
            let application = &applications[i];
            let plain = application.challenger.is_none() && application.challenger_deposit.is_none()
                && application.votes_for.is_none() && application.voters_for.len() == 0
                && application.votes_against.is_none() && application.voters_against.len() == 0;
            if !plain {
                proof {
                    let records = views(applications@);
                    assert(!records[i as int].uncontested());
                    if ordered(records) {
                        lemma_record_at(records, i as int);
                    }
                }
                return None;
            }
            i += 1;
        }
        let mut k: usize = 0;
        while k < challenges.len()
            invariant
                k <= challenges.len(),
                forall|j: int| 0 <= j < k ==> (#[trigger] views(challenges@)[j]).contested(),
            decreases challenges.len() - k,
        {
            let application = &challenges[k];
            let sound = application.challenger.is_some() && application.challenger_deposit.is_some()
                && application.is_tallied();
            if !sound {
                proof {
                    let records = views(challenges@);
                    assert(!records[k as int].contested());
                    if ordered(records) {
                        lemma_record_at(records, k as int);
                    }
                }
                return None;
            }
            k += 1;
        }
        let ghost pending = views(applications@);
        let ghost contested = views(challenges@);
        let applications = match Registry::from_entries(applications) {
            Some(registry) => registry,
            None => {
                return None;
            },
        };
        let challenges = match Registry::from_entries(challenges) {
            Some(registry) => registry,
            None => {
                return None;
            },
        };
        let members = match Registry::from_entries(members) {
            Some(registry) => registry,
            None => {
                return None;
            },
        };
        proof {
            assert forall|who: AccountId| listed(pending, who) implies (#[trigger] record_of(
                pending,
                who,
            )).uncontested() by {
                lemma_rank(pending, who);
            }
            assert forall|who: AccountId| listed(contested, who) implies (#[trigger] record_of(
                contested,
                who,
            )).contested() by {
                lemma_rank(contested, who);
            }
        }
        Some(Module { config, applications, challenges, members })
    }
}

/// In every pending application and in every challenge, each vote total is the sum of the
/// stakes of the votes it stands for.
pub proof fn lemma_votes_are_tallied(view: ModuleView, who: AccountId)
    requires
        view.wf(),
    ensures
        listed(view.applications, who) ==> votes(record_of(view.applications, who).votes_for)
            == stake_sum(record_of(view.applications, who).voters_for) && votes(
            record_of(view.applications, who).votes_against,
        ) == stake_sum(record_of(view.applications, who).voters_against),
        listed(view.challenges, who) ==> votes(record_of(view.challenges, who).votes_for)
            == stake_sum(record_of(view.challenges, who).voters_for) && votes(
            record_of(view.challenges, who).votes_against,
        ) == stake_sum(record_of(view.challenges, who).voters_against),
{
    if listed(view.applications, who) {
        assert(record_of(view.applications, who).uncontested());
    }
    if listed(view.challenges, who) {
        assert(record_of(view.challenges, who).contested());
    }
}

/// An application keeps the collections well formed, and apart if they were.
pub proof fn lemma_apply_keeps_wf(
    view: ModuleView,
    origin: AccountId,
    metadata: Seq<u8>,
    deposit: Balance,
    now: BlockNumber,
)
    requires
        view.wf(),
        !listed(view.challenges, origin),
    ensures
        view.applied(origin, metadata, deposit, now).wf(),
        view.exclusive() ==> view.applied(origin, metadata, deposit, now).exclusive(),
{
    let record = fresh(origin, metadata, deposit, now);
    lemma_put(view.applications, record);
    let after = view.applied(origin, metadata, deposit, now);
    assert forall|who: AccountId| listed(after.applications, who) implies (#[trigger] record_of(
        after.applications,
        who,
    )).uncontested() by {
        if who != origin {
            assert(record_of(view.applications, who).uncontested());
        }
    }
    if view.exclusive() {
        assert forall|who: AccountId|
            !(listed(after.applications, who) && listed(after.challenges, who)) by {
            if who != origin {
                assert(!(listed(view.applications, who) && listed(view.challenges, who)));
            }
        }
    }
}

/// An application keeps the reserves in step with the stakes.
pub proof fn lemma_apply_keeps_backing(
    view: ModuleView,
    ledger: LedgerView,
    origin: AccountId,
    metadata: Seq<u8>,
    deposit: Balance,
    now: BlockNumber,
)
    requires
        view.wf(),
        !listed(view.applications, origin),
        deposit <= ledger.free(origin),
        backed(view.applications, view.challenges, ledger),
    ensures
        backed(
            view.applied(origin, metadata, deposit, now).applications,
            view.challenges,
            ledger.reserve(origin, deposit as nat),
        ),
{
    let record = fresh(origin, metadata, deposit, now);
    let after = ledger.reserve(origin, deposit as nat);
    assert forall|who: AccountId| #[trigger]
        after.reserved(who) == staked(put(view.applications, record), who) + staked(
            view.challenges,
            who,
        ) by {
        lemma_staked_put(view.applications, record, who);
        lemma_stake_in(record, who, origin, deposit, now, true);
        assert(ledger.reserved(who) == staked(view.applications, who) + staked(
            view.challenges,
            who,
        ));
    }
}

/// Contesting an application keeps the collections well formed, and apart if they were.
pub proof fn lemma_counter_keeps_wf(
    view: ModuleView,
    origin: AccountId,
    member: AccountId,
    deposit: Balance,
    now: BlockNumber,
)
    requires
        view.wf(),
        listed(view.applications, member),
    ensures
        view.countered(origin, member, deposit, now).wf(),
        view.exclusive() ==> view.countered(origin, member, deposit, now).exclusive(),
        record_of(view.applications, member).candidate == member,
{
    let record = record_of(view.applications, member);
    let contested = record.countered(origin, deposit, now);
    lemma_rank(view.applications, member);
    assert(record.uncontested());
    lemma_without(view.applications, member);
    lemma_put(view.challenges, contested);
    let after = view.countered(origin, member, deposit, now);
    assert forall|who: AccountId| listed(after.applications, who) implies (#[trigger] record_of(
        after.applications,
        who,
    )).uncontested() by {
        assert(record_of(view.applications, who).uncontested());
    }
    assert forall|who: AccountId| listed(after.challenges, who) implies (#[trigger] record_of(
        after.challenges,
        who,
    )).contested() by {
        if who != member {
            assert(record_of(view.challenges, who).contested());
        }
    }
    if view.exclusive() {
        assert forall|who: AccountId|
            !(listed(after.applications, who) && listed(after.challenges, who)) by {
            if who != member {
                assert(!(listed(view.applications, who) && listed(view.challenges, who)));
            }
        }
    }
}

/// Contesting an application keeps the reserves in step with the stakes.
pub proof fn lemma_counter_keeps_backing(
    view: ModuleView,
    ledger: LedgerView,
    origin: AccountId,
    member: AccountId,
    deposit: Balance,
    now: BlockNumber,
)
    requires
        view.wf(),
        view.exclusive(),
        listed(view.applications, member),
        deposit <= ledger.free(origin),
        backed(view.applications, view.challenges, ledger),
    ensures
        backed(
            view.countered(origin, member, deposit, now).applications,
            view.countered(origin, member, deposit, now).challenges,
            ledger.reserve(origin, deposit as nat),
        ),
{
    let record = record_of(view.applications, member);
    let contested = record.countered(origin, deposit, now);
    lemma_rank(view.applications, member);
    assert(record.uncontested());
    assert(!(listed(view.applications, member) && listed(view.challenges, member)));
    let after = ledger.reserve(origin, deposit as nat);
    assert forall|who: AccountId| #[trigger]
        after.reserved(who) == staked(without(view.applications, member), who) + staked(
            put(view.challenges, contested),
            who,
        ) by {
        lemma_staked_without(view.applications, member, who);
        lemma_staked_put(view.challenges, contested, who);
        lemma_stake_in(record, who, origin, deposit, now, true);
        assert(ledger.reserved(who) == staked(view.applications, who) + staked(
            view.challenges,
            who,
        ));
    }
}

/// A vote keeps the collections well formed, and apart if they were.
pub proof fn lemma_vote_keeps_wf(
    view: ModuleView,
    origin: AccountId,
    member: AccountId,
    supporting: bool,
    deposit: Balance,
)
    requires
        view.wf(),
        listed(view.challenges, member),
        view.votes_on(member, supporting) + deposit <= u64::MAX,
    ensures
        view.voted(origin, member, supporting, deposit).wf(),
        view.exclusive() ==> view.voted(origin, member, supporting, deposit).exclusive(),
        record_of(view.challenges, member).candidate == member,
{
    let record = record_of(view.challenges, member);
    let after_record = record.voted(origin, supporting, deposit);
    lemma_rank(view.challenges, member);
    assert(record.contested());
    lemma_stake_pushed(record.voters_for, (origin, deposit), origin);
    lemma_stake_pushed(record.voters_against, (origin, deposit), origin);
    assert(after_record.contested());
    lemma_put(view.challenges, after_record);
    let after = view.voted(origin, member, supporting, deposit);
    assert forall|who: AccountId| listed(after.challenges, who) implies (#[trigger] record_of(
        after.challenges,
        who,
    )).contested() by {
        if who != member {
            assert(record_of(view.challenges, who).contested());
        }
    }
    if view.exclusive() {
        assert forall|who: AccountId|
            !(listed(after.applications, who) && listed(after.challenges, who)) by {
            assert(!(listed(view.applications, who) && listed(view.challenges, who)));
        }
    }
}

/// A vote keeps the reserves in step with the stakes.
pub proof fn lemma_vote_keeps_backing(
    view: ModuleView,
    ledger: LedgerView,
    origin: AccountId,
    member: AccountId,
    supporting: bool,
    deposit: Balance,
)
    requires
        view.wf(),
        listed(view.challenges, member),
        deposit <= ledger.free(origin),
        backed(view.applications, view.challenges, ledger),
    ensures
        backed(
            view.applications,
            view.voted(origin, member, supporting, deposit).challenges,
            ledger.reserve(origin, deposit as nat),
        ),
{
    let record = record_of(view.challenges, member);
    let after_record = record.voted(origin, supporting, deposit);
    lemma_rank(view.challenges, member);
    let after = ledger.reserve(origin, deposit as nat);
    assert forall|who: AccountId| #[trigger]
        after.reserved(who) == staked(view.applications, who) + staked(
            put(view.challenges, after_record),
            who,
        ) by {
        lemma_staked_put(view.challenges, after_record, who);
        lemma_stake_in(record, who, origin, deposit, 0, supporting);
        assert(ledger.reserved(who) == staked(view.applications, who) + staked(
            view.challenges,
            who,
        ));
    }
}

/// A challenge of a member keeps the collections well formed, and apart if they were and
/// the member has no pending application.
pub proof fn lemma_challenge_keeps_wf(
    view: ModuleView,
    origin: AccountId,
    member: AccountId,
    deposit: Balance,
    now: BlockNumber,
)
    requires
        view.wf(),
        listed(view.members, member),
    ensures
        view.challenged(origin, member, deposit, now).wf(),
        view.exclusive() && !listed(view.applications, member) ==> view.challenged(
            origin,
            member,
            deposit,
            now,
        ).exclusive(),
        record_of(view.members, member).candidate == member,
{
    let record = record_of(view.members, member);
    let opened = record.challenged(origin, deposit, now);
    lemma_rank(view.members, member);
    lemma_put(view.challenges, opened);
    let after = view.challenged(origin, member, deposit, now);
    assert forall|who: AccountId| listed(after.challenges, who) implies (#[trigger] record_of(
        after.challenges,
        who,
    )).contested() by {
        if who != member {
            assert(record_of(view.challenges, who).contested());
        }
    }
    if view.exclusive() && !listed(view.applications, member) {
        assert forall|who: AccountId|
            !(listed(after.applications, who) && listed(after.challenges, who)) by {
            if who != member {
                assert(!(listed(view.applications, who) && listed(view.challenges, who)));
            }
        }
    }
}

/// A challenge of a member that made no deposit and is not being challenged already keeps
/// the reserves in step with the stakes. A deposit of the member counts as its stake in the
/// challenge without being reserved for it.
pub proof fn lemma_challenge_keeps_backing(
    view: ModuleView,
    ledger: LedgerView,
    origin: AccountId,
    member: AccountId,
    deposit: Balance,
    now: BlockNumber,
)
    requires
        view.wf(),
        listed(view.members, member),
        !listed(view.challenges, member),
        record_of(view.members, member).candidate_deposit == 0,
        deposit <= ledger.free(origin),
        backed(view.applications, view.challenges, ledger),
    ensures
        backed(
            view.applications,
            view.challenged(origin, member, deposit, now).challenges,
            ledger.reserve(origin, deposit as nat),
        ),
{
    let record = record_of(view.members, member);
    let opened = record.challenged(origin, deposit, now);
    lemma_rank(view.members, member);
    let after = ledger.reserve(origin, deposit as nat);
    assert forall|who: AccountId| #[trigger]
        after.reserved(who) == staked(view.applications, who) + staked(
            put(view.challenges, opened),
            who,
        ) by {
        lemma_staked_put(view.challenges, opened, who);
        lemma_stake_in(record, who, origin, deposit, now, true);
        assert(ledger.reserved(who) == staked(view.applications, who) + staked(
            view.challenges,
            who,
        ));
    }
}

/// The walk over the challenges keeps the collections well formed, and apart if they were.
pub proof fn lemma_resolved_wf(view: ModuleView, config: Config, now: BlockNumber)
    requires
        view.wf(),
    ensures
        view.resolved(config, now).wf(),
        view.exclusive() ==> view.resolved(config, now).exclusive(),
{
    let after = view.resolved(config, now);
    lemma_unripe(view.challenges, true, now, config.finalize_challenge_period);
    crate::finalize::lemma_resolve_pass_ordered(
        start(view.members),
        view.challenges,
        now,
        config.finalize_challenge_period,
    );
    assert forall|who: AccountId| listed(after.challenges, who) implies (#[trigger] record_of(
        after.challenges,
        who,
    )).contested() by {
        assert(record_of(view.challenges, who).contested());
    }
    if view.exclusive() {
        assert forall|who: AccountId|
            !(listed(after.applications, who) && listed(after.challenges, who)) by {
            assert(!(listed(view.applications, who) && listed(view.challenges, who)));
        }
    }
}

} // verus!
