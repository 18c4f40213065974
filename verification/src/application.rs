//! The record of one candidate: the deposits and votes staked for and against it.

use crate::types::{AccountId, Balance, BlockNumber};
use vstd::prelude::*;

verus! {

/// An account and what it staked.
pub type Stake = (AccountId, Balance);

/// The application of one candidate, as it stands among the pending applications, the
/// challenges or the members.
#[derive(Debug, PartialEq, Eq)]
pub struct Application {
    /// The account that applied.
    pub candidate: AccountId,
    /// What the candidate reserved for the application.
    pub candidate_deposit: Balance,
    /// Whatever the candidate attached: a link, a name.
    pub metadata: Vec<u8>,
    /// The account that contested the application, once one has.
    pub challenger: Option<AccountId>,
    /// What the challenger reserved.
    pub challenger_deposit: Option<Balance>,
    /// The sum of the stakes in `voters_for`, once a vote has come in.
    pub votes_for: Option<Balance>,
    /// The votes in support, in the order of their arrival.
    pub voters_for: Vec<Stake>,
    /// The sum of the stakes in `voters_against`, once a vote has come in.
    pub votes_against: Option<Balance>,
    /// The votes in opposition, in the order of their arrival.
    pub voters_against: Vec<Stake>,
    /// The block of the application.
    pub created_block: BlockNumber,
    /// The block at which the application was contested; zero before.
    pub challenged_block: BlockNumber,
}

/// An application as a mathematical value.
pub struct ApplicationView {
    pub candidate: AccountId,
    pub candidate_deposit: Balance,
    pub metadata: Seq<u8>,
    pub challenger: Option<AccountId>,
    pub challenger_deposit: Option<Balance>,
    pub votes_for: Option<Balance>,
    pub voters_for: Seq<Stake>,
    pub votes_against: Option<Balance>,
    pub voters_against: Seq<Stake>,
    pub created_block: BlockNumber,
    pub challenged_block: BlockNumber,
}

impl View for Application {
    type V = ApplicationView;

    open spec fn view(&self) -> ApplicationView {
        ApplicationView {
            candidate: self.candidate,
            candidate_deposit: self.candidate_deposit,
            metadata: self.metadata@,
            challenger: self.challenger,
            challenger_deposit: self.challenger_deposit,
            votes_for: self.votes_for,
            voters_for: self.voters_for@,
            votes_against: self.votes_against,
            voters_against: self.voters_against@,
            created_block: self.created_block,
            challenged_block: self.challenged_block,
        }
    }
}

/// The sum of all stakes.
pub open spec fn stake_sum(stakes: Seq<Stake>) -> nat
    decreases stakes.len(),
{
    if stakes.len() == 0 {
        0
    } else {
        stake_sum(stakes.drop_last()) + stakes.last().1 as nat
    }
}

/// The sum of the stakes of one account.
pub open spec fn stake_of(stakes: Seq<Stake>, who: AccountId) -> nat
    decreases stakes.len(),
{
    if stakes.len() == 0 {
        0
    } else {
        stake_of(stakes.drop_last(), who) + if stakes.last().0 == who {
            stakes.last().1 as nat
        } else {
            0
        }
    }
}

/// A vote total agrees with the votes it stands for: absent while there is no vote, their sum
/// from the first vote on.
pub open spec fn tally_matches(total: Option<Balance>, voters: Seq<Stake>) -> bool {
    match total {
        None => voters.len() == 0,
        Some(votes) => voters.len() > 0 && votes == stake_sum(voters),
    }
}

/// A vote total as a number: zero while there is no vote.
pub open spec fn votes(total: Option<Balance>) -> nat {
    match total {
        None => 0,
        Some(votes) => votes as nat,
    }
}

impl ApplicationView {
    /// Both vote totals agree with the votes.
    pub open spec fn tallied(self) -> bool {
        &&& tally_matches(self.votes_for, self.voters_for)
        &&& tally_matches(self.votes_against, self.voters_against)
    }

    /// The record of an application that nobody has contested: it names no challenger and
    /// holds no vote.
    pub open spec fn uncontested(self) -> bool {
        &&& self.challenger is None
        &&& self.challenger_deposit is None
        &&& self.votes_for is None
        &&& self.voters_for.len() == 0
        &&& self.votes_against is None
        &&& self.voters_against.len() == 0
    }

    /// The record of a contested application: it names the challenger and the deposit.
    pub open spec fn contested(self) -> bool {
        &&& self.challenger is Some
        &&& self.challenger_deposit is Some
        &&& self.tallied()
    }

    /// The tokens staked in support: the candidate's deposit and the votes for.
    pub open spec fn supporting(self) -> nat {
        self.candidate_deposit as nat + votes(self.votes_for)
    }

    /// The tokens staked in opposition: the challenger's deposit and the votes against.
    pub open spec fn opposing(self) -> nat {
        votes(self.challenger_deposit) + votes(self.votes_against)
    }

    /// Whether the application carries the vote. A tie goes to the challenger.
    pub open spec fn carried(self) -> bool {
        self.supporting() > self.opposing()
    }

    /// The stake of the candidate.
    pub open spec fn candidate_stake(self) -> Seq<Stake> {
        seq![(self.candidate, self.candidate_deposit)]
    }

    /// The stake of the challenger, if there is one.
    pub open spec fn challenger_stake(self) -> Seq<Stake> {
        match self.challenger {
            Some(challenger) => seq![
                (
                    challenger,
                    match self.challenger_deposit {
                        Some(deposit) => deposit,
                        None => 0,
                    },
                ),
            ],
            None => seq![],
        }
    }

    /// The side in support: the voters for in the order of their votes, the candidate last.
    pub open spec fn supporters(self) -> Seq<Stake> {
        self.voters_for + self.candidate_stake()
    }

    /// The side in opposition: the voters against in the order of their votes, the challenger
    /// last.
    pub open spec fn opponents(self) -> Seq<Stake> {
        self.voters_against + self.challenger_stake()
    }

    /// What `who` has at stake in this record: as candidate, as challenger and as voter.
    pub open spec fn stake_in(self, who: AccountId) -> nat {
        stake_of(self.supporters(), who) + stake_of(self.opponents(), who)
    }

    /// This application once `challenger` has contested it with `deposit` at block `now`.
    pub open spec fn countered(
        self,
        challenger: AccountId,
        deposit: Balance,
        now: BlockNumber,
    ) -> Self {
        ApplicationView {
            challenger: Some(challenger),
            challenger_deposit: Some(deposit),
            challenged_block: now,
            ..self
        }
    }

    /// This application, contested anew by `challenger` with `deposit` at block `now`: all
    /// earlier votes are forgotten.
    pub open spec fn challenged(
        self,
        challenger: AccountId,
        deposit: Balance,
        now: BlockNumber,
    ) -> Self {
        ApplicationView {
            challenger: Some(challenger),
            challenger_deposit: Some(deposit),
            challenged_block: now,
            votes_for: None,
            voters_for: Seq::empty(),
            votes_against: None,
            voters_against: Seq::empty(),
            ..self
        }
    }

    /// This application with one more vote. Meant for a vote whose stake the total can take.
    pub open spec fn voted(self, voter: AccountId, supporting: bool, deposit: Balance) -> Self {
        if supporting {
            ApplicationView {
                votes_for: Some((votes(self.votes_for) + deposit) as Balance),
                voters_for: self.voters_for.push((voter, deposit)),
                ..self
            }
        } else {
            ApplicationView {
                votes_against: Some((votes(self.votes_against) + deposit) as Balance),
                voters_against: self.voters_against.push((voter, deposit)),
                ..self
            }
        }
    }
}

/// The record of a fresh application.
pub open spec fn fresh(
    candidate: AccountId,
    metadata: Seq<u8>,
    deposit: Balance,
    now: BlockNumber,
) -> ApplicationView {
    ApplicationView {
        candidate,
        candidate_deposit: deposit,
        metadata,
        challenger: None,
        challenger_deposit: None,
        votes_for: None,
        voters_for: Seq::empty(),
        votes_against: None,
        voters_against: Seq::empty(),
        created_block: now,
        challenged_block: 0,
    }
}

/// Adding a stake at the end adds it to the sum, and to the sum of its owner.
pub proof fn lemma_stake_pushed(stakes: Seq<Stake>, stake: Stake, who: AccountId)
    ensures
        stake_sum(stakes.push(stake)) == stake_sum(stakes) + stake.1,
        stake_of(stakes.push(stake), who) == stake_of(stakes, who) + if stake.0 == who {
            stake.1 as nat
        } else {
            0
        },
{
    assert(stakes.push(stake).drop_last() =~= stakes);
}

/// The sums over two lists of stakes, one after the other, add up.
pub proof fn lemma_stakes_joined(first: Seq<Stake>, second: Seq<Stake>, who: AccountId)
    ensures
        stake_sum(first + second) == stake_sum(first) + stake_sum(second),
        stake_of(first + second, who) == stake_of(first, who) + stake_of(second, who),
    decreases second.len(),
{
    if second.len() == 0 {
        assert(first + second =~= first);
    } else {
        assert((first + second).drop_last() =~= first + second.drop_last());
        lemma_stakes_joined(first, second.drop_last(), who);
    }
}

/// A list of one stake holds that stake for its owner and nothing for anyone else.
pub proof fn lemma_single_stake(stake: Stake, who: AccountId)
    ensures
        stake_sum(seq![stake]) == stake.1,
        stake_of(seq![stake], who) == if stake.0 == who {
            stake.1 as nat
        } else {
            0
        },
        stake_sum(Seq::<Stake>::empty()) == 0,
        stake_of(Seq::<Stake>::empty(), who) == 0,
{
    let one = seq![stake];
    let none = Seq::<Stake>::empty();
    assert(one.drop_last() =~= none);
    assert(one.last() == stake);
    assert(stake_sum(none) == 0);
    assert(stake_of(none, who) == 0);
    assert(stake_sum(one) == stake_sum(one.drop_last()) + one.last().1 as nat);
}

/// What an account has at stake in a fresh application, in one that was just contested and
/// in one that just received a vote.
pub proof fn lemma_stake_in(
    record: ApplicationView,
    who: AccountId,
    other: AccountId,
    deposit: Balance,
    now: BlockNumber,
    supporting: bool,
)
    ensures
        fresh(other, record.metadata, deposit, now).stake_in(who) == if who == other {
            deposit as nat
        } else {
            0
        },
        record.challenger is None ==> record.countered(other, deposit, now).stake_in(who)
            == record.stake_in(who) + if who == other {
            deposit as nat
        } else {
            0
        },
        record.voted(other, supporting, deposit).stake_in(who) == record.stake_in(who) + if who
            == other {
            deposit as nat
        } else {
            0
        },
        record.challenged(other, deposit, now).stake_in(who) == (if who == record.candidate {
            record.candidate_deposit as nat
        } else {
            0
        }) + if who == other {
            deposit as nat
        } else {
            0
        },
{
    let none = Seq::<Stake>::empty();
    lemma_single_stake((other, deposit), who);
    lemma_single_stake((record.candidate, record.candidate_deposit), who);
    let made = fresh(other, record.metadata, deposit, now);
    lemma_stakes_joined(made.voters_for, made.candidate_stake(), who);
    assert(made.opponents() =~= none);
    lemma_stakes_joined(record.voters_for, record.candidate_stake(), who);
    lemma_stakes_joined(record.voters_against, record.challenger_stake(), who);
    if record.challenger is None {
        let contested = record.countered(other, deposit, now);
        lemma_stakes_joined(contested.voters_for, contested.candidate_stake(), who);
        lemma_stakes_joined(contested.voters_against, contested.challenger_stake(), who);
        assert(record.challenger_stake() =~= none);
    }
    let after = record.voted(other, supporting, deposit);
    lemma_stakes_joined(after.voters_for, after.candidate_stake(), who);
    lemma_stakes_joined(after.voters_against, after.challenger_stake(), who);
    lemma_stake_pushed(record.voters_for, (other, deposit), who);
    lemma_stake_pushed(record.voters_against, (other, deposit), who);
    let again = record.challenged(other, deposit, now);
    lemma_stakes_joined(again.voters_for, again.candidate_stake(), who);
    lemma_stakes_joined(again.voters_against, again.challenger_stake(), who);
}

/// In an application that nobody has contested, only the candidate has anything at stake:
/// its deposit.
pub proof fn lemma_uncontested_stake(record: ApplicationView, who: AccountId)
    requires
        record.uncontested(),
    ensures
        record.stake_in(who) == if who == record.candidate {
            record.candidate_deposit as nat
        } else {
            0
        },
{
    let none = Seq::<Stake>::empty();
    lemma_single_stake((record.candidate, record.candidate_deposit), who);
    lemma_stakes_joined(record.voters_for, record.candidate_stake(), who);
    assert(record.voters_for =~= none);
    assert(record.opponents() =~= none);
}

/// Copies a list of stakes.
pub fn copy_stakes(stakes: &Vec<Stake>) -> (copy: Vec<Stake>)
    ensures
        copy@ == stakes@,
{
    let mut copy: Vec<Stake> = Vec::new();
    let mut i: usize = 0;
    while i < stakes.len()
        invariant
            i <= stakes.len(),
            copy@ == stakes@.take(i as int),
        decreases stakes.len() - i,
    {
        let stake = stakes[i];
        copy.push((stake.0, stake.1));
        proof {
            assert(stakes@.take(i + 1) =~= stakes@.take(i as int).push(stakes@[i as int]));
        }
        i += 1;
    }
    proof {
        assert(stakes@.take(stakes.len() as int) =~= stakes@);
    }
    copy
}

/// Copies a sequence of bytes.
pub fn copy_bytes(bytes: &Vec<u8>) -> (copy: Vec<u8>)
    ensures
        copy@ == bytes@,
{
    let mut copy: Vec<u8> = Vec::new();
    let mut i: usize = 0;
    while i < bytes.len()
        invariant
            i <= bytes.len(),
            copy@ == bytes@.take(i as int),
        decreases bytes.len() - i,
    {
        copy.push(bytes[i]);
        proof {
            assert(bytes@.take(i + 1) =~= bytes@.take(i as int).push(bytes@[i as int]));
        }
        i += 1;
    }
    proof {
        assert(bytes@.take(bytes.len() as int) =~= bytes@);
    }
    copy
}

impl Clone for Application {
    fn clone(&self) -> (copy: Self)
        ensures
            copy@ == self@,
    {
        Application {
            candidate: self.candidate,
            candidate_deposit: self.candidate_deposit,
            metadata: copy_bytes(&self.metadata),
            challenger: self.challenger,
            challenger_deposit: self.challenger_deposit,
            votes_for: self.votes_for,
            voters_for: copy_stakes(&self.voters_for),
            votes_against: self.votes_against,
            voters_against: copy_stakes(&self.voters_against),
            created_block: self.created_block,
            challenged_block: self.challenged_block,
        }
    }
}

impl Application {
    /// The record of a fresh application.
    pub fn new(
        candidate: AccountId,
        metadata: Vec<u8>,
        deposit: Balance,
        now: BlockNumber,
    ) -> (application: Self)
        ensures
            application@ == fresh(candidate, metadata@, deposit, now),
    {
        Application {
            candidate,
            candidate_deposit: deposit,
            metadata,
            challenger: None,
            challenger_deposit: None,
            votes_for: None,
            voters_for: Vec::new(),
            votes_against: None,
            voters_against: Vec::new(),
            created_block: now,
            challenged_block: 0,
        }
    }

    /// Adds up a list of stakes; `None` where the sum does not fit a `Balance`.
    pub fn sum_stakes(stakes: &Vec<Stake>) -> (sum: Option<Balance>)
        ensures
            sum is Some <==> stake_sum(stakes@) <= u64::MAX,
            sum matches Some(total) ==> total == stake_sum(stakes@),
    {
        let mut total: Balance = 0;
        let mut i: usize = 0;
        while i < stakes.len()
            invariant
                i <= stakes.len(),
                total == stake_sum(stakes@.take(i as int)),
            decreases stakes.len() - i,
        {
            proof {
                assert(stakes@.take(i + 1) =~= stakes@.take(i as int).push(stakes@[i as int]));
                lemma_stake_pushed(stakes@.take(i as int), stakes@[i as int], 0);
                lemma_stake_sum_grows(stakes@, i + 1);
            }
            match total.checked_add(stakes[i].1) {
                Some(next) => {
                    total = next;
                },
                None => {
                    return None;
                },
            }
            i += 1;
        }
        proof {
            assert(stakes@.take(stakes.len() as int) =~= stakes@);
        }
        Some(total)
    }

    /// Whether both vote totals agree with the votes.
    pub fn is_tallied(&self) -> (tallied: bool)
        ensures
            tallied == self@.tallied(),
    {
        Self::tally_agrees(&self.votes_for, &self.voters_for) && Self::tally_agrees(
            &self.votes_against,
            &self.voters_against,
        )
    }

    fn tally_agrees(total: &Option<Balance>, voters: &Vec<Stake>) -> (agrees: bool)
        ensures
            agrees == tally_matches(*total, voters@),
    {
        match total {
            None => voters.len() == 0,
            Some(votes) => {
                if voters.len() == 0 {
                    false
                } else {
                    match Self::sum_stakes(voters) {
                        Some(sum) => sum == *votes,
                        None => false,
                    }
                }
            },
        }
    }
}

/// The sum over the first stakes is at most the sum over all.
pub proof fn lemma_stake_sum_grows(stakes: Seq<Stake>, n: int)
    requires
        0 <= n <= stakes.len(),
    ensures
        stake_sum(stakes.take(n)) <= stake_sum(stakes),
    decreases stakes.len() - n,
{
    if n < stakes.len() {
        lemma_stake_sum_grows(stakes, n + 1);
        assert(stakes.take(n + 1).drop_last() =~= stakes.take(n));
    } else {
        assert(stakes.take(n) =~= stakes);
    }
}

} // verus!
