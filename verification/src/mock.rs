//! A fixture for trying out the engines: a set of rules, a handful of funded accounts and a
//! subscriber that checks what it is told.

use crate::ledger::Ledger;
use crate::members::{
    copy_accounts, join_accounts, lemma_ascending_unique, same_accounts, sort_accounts,
    ChangeMembers, Notice,
};
use crate::permille::Permille;
use crate::types::{AccountId, Balance};
use vstd::prelude::*;

verus! {

/// The account that applies.
pub const CANDIDATE: AccountId = 1u64;

/// The account that contests pending applications.
pub const CHALLENGER_1: AccountId = 2u64;

/// The account that challenges members.
pub const CHALLENGER_2: AccountId = 3u64;

/// The account that votes in support.
pub const VOTER_FOR: AccountId = 4u64;

/// The account that votes in opposition.
pub const VOTER_AGAINST: AccountId = 5u64;

/// What each voter of the fixture is given.
pub const VOTER_FUNDS: Balance = 1000u64;

/// The rules of the fixture.
#[derive(Clone, Copy, Debug)]
pub struct Test;

impl Test {
    /// The rules of the fixture's registry: deposits of at least 100 to apply, 1000 to
    /// contest and 10000 to challenge, applications admitted after 100 blocks, challenges
    /// resolved after 101, and half of every losing stake slashed.
    pub fn tcr() -> (config: crate::tcr::Config)
        ensures
            config.minimum_application_amount == 100,
            config.minimum_counter_amount == 1000,
            config.minimum_challenge_amount == 10000,
            config.finalize_application_period == 100,
            config.finalize_challenge_period == 101,
            config.loosers_slash.spec_parts() == 500,
    {
        crate::tcr::Config {
            minimum_application_amount: 100,
            minimum_counter_amount: 1000,
            minimum_challenge_amount: 10000,
            finalize_application_period: 100,
            finalize_challenge_period: 101,
            loosers_slash: Permille::from_percent(50),
        }
    }

    /// The rules of the fixture's table of slots: a fee of 1000 to book or renew, and a
    /// validity of 100000 blocks.
    pub fn root_of_trust() -> (config: crate::root_of_trust::Config)
        ensures
            config == (crate::root_of_trust::Config {
                slot_booking_cost: 1000,
                slot_renewing_cost: 1000,
                slot_validity: 100000,
            }),
    {
        crate::root_of_trust::Config {
            slot_booking_cost: 1000,
            slot_renewing_cost: 1000,
            slot_validity: 100000,
        }
    }
}

/// Gives every account of the fixture what it needs for its part: the candidate the least
/// deposit of an application, the challengers the least deposits to contest and to
/// challenge, and each voter a thousand.
pub fn allocate_balances<L: Ledger>(ledger: &mut L)
    requires
        old(ledger).wf(),
    ensures
        final(ledger).wf(),
        final(ledger)@ == old(ledger)@.endow(CANDIDATE, 100).endow(CHALLENGER_1, 1000).endow(
            CHALLENGER_2,
            10000,
        ).endow(VOTER_FOR, 1000).endow(VOTER_AGAINST, 1000),
{
    let config = Test::tcr();
    let _ = ledger.deposit_creating(CANDIDATE, config.minimum_application_amount);
    let _ = ledger.deposit_creating(CHALLENGER_1, config.minimum_counter_amount);
    let _ = ledger.deposit_creating(CHALLENGER_2, config.minimum_challenge_amount);
    let _ = ledger.deposit_creating(VOTER_FOR, VOTER_FUNDS);
    let _ = ledger.deposit_creating(VOTER_AGAINST, VOTER_FUNDS);
}

/// A subscriber that keeps the membership it is told and checks every change against the
/// membership it knew: the old members and the incoming ones have to be the new members and
/// the outgoing ones.
#[derive(Clone)]
pub struct TestChangeMembers {
    members: Vec<AccountId>,
    consistent: bool,
    notices: Ghost<Seq<Notice>>,
}

impl TestChangeMembers {
    /// A subscriber that knows no member.
    pub fn new() -> (sink: Self)
        ensures
            sink.members() == Seq::<AccountId>::empty(),
            sink.notices() == Seq::<Notice>::empty(),
            sink.spec_consistent(),
    {
        TestChangeMembers { members: Vec::new(), consistent: true, notices: Ghost(Seq::empty()) }
    }

    /// Whether every change so far agreed with the membership known before it.
    pub closed spec fn spec_consistent(&self) -> bool {
        self.consistent
    }

    /// Whether every change so far agreed with the membership known before it.
    pub fn consistent(&self) -> (consistent: bool)
        ensures
            consistent == self.spec_consistent(),
    {
        self.consistent
    }

    /// The membership as last told.
    pub fn current(&self) -> (members: &Vec<AccountId>)
        ensures
            members@ == self.members(),
    {
        &self.members
    }
}

impl ChangeMembers for TestChangeMembers {
    closed spec fn members(&self) -> Seq<AccountId> {
        self.members@
    }

    closed spec fn notices(&self) -> Seq<Notice> {
        self.notices@
    }

    /// Takes `new` as the membership, and notes whether the change agrees with the
    /// membership known so far.
    fn change_members_sorted(
        &mut self,
        incoming: &[AccountId],
        outgoing: &[AccountId],
        new: &[AccountId],
    )
        ensures
            final(self).spec_consistent() == (old(self).spec_consistent() && (old(self).members()
                + incoming@).to_multiset() == (new@ + outgoing@).to_multiset()),
    {
        let old_plus_incoming = join_accounts(self.members.as_slice(), incoming);
        let old_plus_incoming = sort_accounts(old_plus_incoming.as_slice());
        let new_plus_outgoing = join_accounts(new, outgoing);
        let new_plus_outgoing = sort_accounts(new_plus_outgoing.as_slice());
        proof {
            lemma_ascending_unique(old_plus_incoming@, new_plus_outgoing@);
        }
        let agrees = same_accounts(&old_plus_incoming, &new_plus_outgoing);
        self.consistent = self.consistent && agrees;
        self.members = copy_accounts(new);
        proof {
            self.notices@ = self.notices@.push(
                Notice { incoming: incoming@, outgoing: outgoing@, new: new@ },
            );
        }
    }
}

} // verus!
