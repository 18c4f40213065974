use curated_pki::application::Application;
use curated_pki::balances::Balances;
use curated_pki::ledger::Ledger;
use curated_pki::mock::TestChangeMembers;
use curated_pki::permille::Permille;
use curated_pki::tcr::{Config, Error, Module};

const MINIMUM_APPLICATION_AMOUNT: u64 = 100;
const MINIMUM_CHALLENGE_AMOUNT: u64 = 1000;
const FINALIZE_APPLICATION_PERIOD: u64 = 100;
const FINALIZE_CHALLENGE_PERIOD: u64 = 101; // Happens later to ease unit tests

const CANDIDATE: u64 = 1;
const CHALLENGER: u64 = 2;
const VOTER_FOR: u64 = 3;
const VOTER_AGAINST: u64 = 4;

/// The block at which every call of these tests is made.
const NOW: u64 = 0;

fn config() -> Config {
    Config {
        minimum_application_amount: MINIMUM_APPLICATION_AMOUNT,
        minimum_counter_amount: MINIMUM_CHALLENGE_AMOUNT,
        minimum_challenge_amount: MINIMUM_CHALLENGE_AMOUNT,
        finalize_application_period: FINALIZE_APPLICATION_PERIOD,
        finalize_challenge_period: FINALIZE_CHALLENGE_PERIOD,
        loosers_slash: Permille::from_percent(50),
    }
}

fn loosers_slash(amount: u64) -> u64 {
    config().loosers_slash.of(amount)
}

struct World {
    tcr: Module,
    ledger: Balances,
    sink: TestChangeMembers,
}

fn new_test_ext() -> World {
    World { tcr: Module::new(config()), ledger: Balances::new(), sink: TestChangeMembers::new() }
}

fn allocate_balances(world: &mut World) {
    world.ledger.deposit_creating(CANDIDATE, MINIMUM_APPLICATION_AMOUNT);
    world.ledger.deposit_creating(CHALLENGER, MINIMUM_CHALLENGE_AMOUNT);
    world.ledger.deposit_creating(VOTER_FOR, 1000);
    world.ledger.deposit_creating(VOTER_AGAINST, 1000);
}

fn funded() -> World {
    let mut world = new_test_ext();
    allocate_balances(&mut world);
    world
}

impl World {
    fn apply(&mut self, origin: u64, deposit: u64) -> Result<(), Error> {
        self.tcr.apply(&mut self.ledger, origin, vec![], deposit, NOW).map(|_| ())
    }

    fn counter(&mut self, origin: u64, member: u64, deposit: u64) -> Result<(), Error> {
        self.tcr.counter(&mut self.ledger, origin, member, deposit, NOW).map(|_| ())
    }

    fn vote(
        &mut self,
        origin: u64,
        member: u64,
        supporting: bool,
        deposit: u64,
    ) -> Result<(), Error> {
        self.tcr.vote(&mut self.ledger, origin, member, supporting, deposit).map(|_| ())
    }

    fn on_finalize(&mut self, block: u64) {
        let _ = self.tcr.on_finalize(&mut self.ledger, &mut self.sink, block);
    }

    fn snapshot(&self) -> (Module, Balances) {
        (self.tcr.clone(), self.ledger.clone())
    }

    fn assert_unchanged(&self, before: &(Module, Balances)) {
        assert_eq!(self.tcr, before.0);
        assert_eq!(self.ledger, before.1);
    }

    fn usable_balance(&self, who: u64) -> u64 {
        self.ledger.free_balance(who)
    }

    fn amount_locked(&self, who: u64) -> u64 {
        self.ledger.reserved_balance(who)
    }
}

#[test]
fn tests_lock_unlock_works() {
    let mut world = funded();

    assert_eq!(world.usable_balance(CANDIDATE), MINIMUM_APPLICATION_AMOUNT);

    assert_eq!(
        Module::reserve_for(&mut world.ledger, CANDIDATE, MINIMUM_APPLICATION_AMOUNT / 2),
        Ok(())
    );
    assert_eq!(world.usable_balance(CANDIDATE), MINIMUM_APPLICATION_AMOUNT / 2);
    assert_eq!(world.amount_locked(CANDIDATE), MINIMUM_APPLICATION_AMOUNT / 2);
    assert_eq!(
        Module::reserve_for(&mut world.ledger, CANDIDATE, MINIMUM_APPLICATION_AMOUNT / 2),
        Ok(())
    );
    assert_eq!(world.usable_balance(CANDIDATE), 0);
    assert_eq!(world.amount_locked(CANDIDATE), MINIMUM_APPLICATION_AMOUNT);
    let before = world.snapshot();
    assert_eq!(
        Module::reserve_for(&mut world.ledger, CANDIDATE, 1),
        Err(Error::NotEnoughFunds)
    );
    world.assert_unchanged(&before);

    assert_eq!(
        Module::unreserve_for(&mut world.ledger, CANDIDATE, MINIMUM_APPLICATION_AMOUNT / 2),
        Ok(())
    );
    assert_eq!(world.usable_balance(CANDIDATE), MINIMUM_APPLICATION_AMOUNT / 2);
    assert_eq!(world.amount_locked(CANDIDATE), MINIMUM_APPLICATION_AMOUNT / 2);
    assert_eq!(
        Module::unreserve_for(&mut world.ledger, CANDIDATE, MINIMUM_APPLICATION_AMOUNT / 2),
        Ok(())
    );
    assert_eq!(world.usable_balance(CANDIDATE), MINIMUM_APPLICATION_AMOUNT);
    assert_eq!(world.amount_locked(CANDIDATE), 0);
}

#[test]
fn tests_apply_works() {
    let mut world = funded();

    assert_eq!(world.apply(CANDIDATE, MINIMUM_APPLICATION_AMOUNT), Ok(()));
    assert_eq!(
        world.tcr.applications(CANDIDATE).unwrap().candidate_deposit,
        MINIMUM_APPLICATION_AMOUNT
    );
    assert_eq!(world.amount_locked(CANDIDATE), MINIMUM_APPLICATION_AMOUNT);
}

#[test]
fn tests_can_not_apply_twice() {
    let mut world = funded();

    assert_eq!(world.apply(CANDIDATE, MINIMUM_APPLICATION_AMOUNT), Ok(()));
    let before = world.snapshot();
    assert_eq!(
        world.apply(CANDIDATE, MINIMUM_APPLICATION_AMOUNT),
        Err(Error::ApplicationPending)
    );
    world.assert_unchanged(&before);
}

#[test]
fn tests_can_not_apply_if_not_enough_tokens() {
    let mut world = new_test_ext();
    let before = world.snapshot();
    assert_eq!(
        world.apply(CANDIDATE, MINIMUM_APPLICATION_AMOUNT),
        Err(Error::NotEnoughFunds)
    );
    world.assert_unchanged(&before);
}

#[test]
fn tests_can_not_apply_if_deposit_is_too_low() {
    let mut world = new_test_ext();
    let before = world.snapshot();
    assert_eq!(
        world.apply(CANDIDATE, MINIMUM_APPLICATION_AMOUNT - 1),
        Err(Error::DepositTooSmall)
    );
    world.assert_unchanged(&before);
}

#[test]
fn tests_counter_works() {
    let mut world = funded();

    assert_eq!(world.apply(CANDIDATE, MINIMUM_APPLICATION_AMOUNT), Ok(()));
    assert_eq!(world.counter(CHALLENGER, CANDIDATE, MINIMUM_CHALLENGE_AMOUNT), Ok(()));

    assert_eq!(world.tcr.applications(CANDIDATE).is_some(), false);
    assert_eq!(world.tcr.challenges(CANDIDATE).is_some(), true);

    assert_eq!(world.amount_locked(CHALLENGER), MINIMUM_CHALLENGE_AMOUNT);
}

#[test]
fn tests_can_not_counter_unexisting_application() {
    let mut world = new_test_ext();
    let before = world.snapshot();
    assert_eq!(
        world.counter(CHALLENGER, CANDIDATE, MINIMUM_CHALLENGE_AMOUNT),
        Err(Error::ApplicationNotFound)
    );
    world.assert_unchanged(&before);
}

#[test]
fn tests_can_not_counter_application_if_deposit_too_low() {
    let mut world = new_test_ext();
    let before = world.snapshot();
    assert_eq!(
        world.counter(CHALLENGER, CANDIDATE, MINIMUM_CHALLENGE_AMOUNT - 1),
        Err(Error::DepositTooSmall)
    );
    world.assert_unchanged(&before);
}

#[test]
fn tests_can_not_counter_application_if_not_enough_funds() {
    let mut world = new_test_ext();
    world.tcr = Module::from_storage(
        config(),
        vec![Application {
            candidate: CANDIDATE,
            candidate_deposit: 0,
            metadata: vec![],
            challenger: None,
            challenger_deposit: None,
            votes_for: None,
            voters_for: vec![],
            votes_against: None,
            voters_against: vec![],
            created_block: NOW,
            challenged_block: NOW,
        }],
        vec![],
        vec![],
    )
    .unwrap();

    let before = world.snapshot();
    assert_eq!(
        world.counter(CHALLENGER, CANDIDATE, MINIMUM_CHALLENGE_AMOUNT),
        Err(Error::NotEnoughFunds)
    );
    world.assert_unchanged(&before);
}

#[test]
fn tests_can_not_reapply_while_challenged() {
    let mut world = funded();

    assert_eq!(world.apply(CANDIDATE, MINIMUM_APPLICATION_AMOUNT), Ok(()));
    assert_eq!(world.counter(CHALLENGER, CANDIDATE, MINIMUM_CHALLENGE_AMOUNT), Ok(()));

    let before = world.snapshot();
    assert_eq!(
        world.apply(CANDIDATE, MINIMUM_APPLICATION_AMOUNT),
        Err(Error::ApplicationChallenged)
    );
    world.assert_unchanged(&before);
}

#[test]
fn tests_vote_positive_and_negative_works() {
    let mut world = funded();

    assert_eq!(world.apply(CANDIDATE, MINIMUM_APPLICATION_AMOUNT), Ok(()));
    assert_eq!(world.counter(CHALLENGER, CANDIDATE, MINIMUM_CHALLENGE_AMOUNT), Ok(()));

    assert_eq!(world.vote(VOTER_FOR, CANDIDATE, true, 100), Ok(()));
    assert_eq!(world.vote(VOTER_AGAINST, CANDIDATE, false, 100), Ok(()));

    let challenge = world.tcr.challenges(CANDIDATE).unwrap().clone();
    assert_eq!(challenge.clone().votes_for, Some(100));
    assert_eq!(challenge.clone().votes_against, Some(100));
    assert_eq!(
        Module::get_supporting(&challenge),
        100 + MINIMUM_APPLICATION_AMOUNT as u128
    );
    assert_eq!(
        Module::get_opposing(&challenge),
        100 + MINIMUM_CHALLENGE_AMOUNT as u128
    );

    assert_eq!(world.amount_locked(VOTER_FOR), 100);
    assert_eq!(world.amount_locked(VOTER_AGAINST), 100);
}

#[test]
fn tests_can_not_vote_if_challenge_does_not_exists() {
    let mut world = funded();

    let before = world.snapshot();
    assert_eq!(
        world.vote(VOTER_FOR, CANDIDATE, true, 100),
        Err(Error::ChallengeNotFound)
    );
    world.assert_unchanged(&before);
}

#[test]
fn tests_can_not_deposit_if_not_enough_funds() {
    let mut world = funded();

    assert_eq!(world.apply(CANDIDATE, MINIMUM_APPLICATION_AMOUNT), Ok(()));
    assert_eq!(world.counter(CHALLENGER, CANDIDATE, MINIMUM_CHALLENGE_AMOUNT), Ok(()));

    let before = world.snapshot();
    assert_eq!(
        world.vote(VOTER_FOR, CANDIDATE, true, 1001),
        Err(Error::NotEnoughFunds)
    );
    world.assert_unchanged(&before);
}

#[test]
fn tests_finalize_application_if_not_challenged_and_enough_time_elapsed() {
    let mut world = funded();

    assert_eq!(world.apply(CANDIDATE, MINIMUM_APPLICATION_AMOUNT), Ok(()));

    world.on_finalize(FINALIZE_APPLICATION_PERIOD + NOW);

    assert_eq!(world.tcr.applications(CANDIDATE).is_some(), false);
    assert_eq!(world.tcr.challenges(CANDIDATE).is_some(), false);
    assert_eq!(world.tcr.members(CANDIDATE).is_some(), true);
}

#[test]
fn tests_does_not_finalize_challenged_application() {
    let mut world = funded();

    assert_eq!(world.apply(CANDIDATE, MINIMUM_APPLICATION_AMOUNT), Ok(()));
    assert_eq!(world.counter(CHALLENGER, CANDIDATE, MINIMUM_CHALLENGE_AMOUNT), Ok(()));

    world.on_finalize(FINALIZE_APPLICATION_PERIOD + NOW);

    assert_eq!(world.tcr.applications(CANDIDATE).is_some(), false);
    assert_eq!(world.tcr.challenges(CANDIDATE).is_some(), true);
    assert_eq!(world.tcr.members(CANDIDATE).is_some(), false);
}

#[test]
fn tests_does_not_finalize_application_if_not_enough_time_elapsed() {
    let mut world = funded();

    assert_eq!(world.apply(CANDIDATE, MINIMUM_APPLICATION_AMOUNT), Ok(()));

    world.on_finalize(FINALIZE_APPLICATION_PERIOD + NOW - 1);

    assert_eq!(world.tcr.applications(CANDIDATE).is_some(), true);
    assert_eq!(world.tcr.challenges(CANDIDATE).is_some(), false);
    assert_eq!(world.tcr.members(CANDIDATE).is_some(), false);
}

#[test]
fn tests_finalize_challenge_if_enough_time_elapsed_drop() {
    let mut world = funded();

    assert_eq!(world.apply(CANDIDATE, MINIMUM_APPLICATION_AMOUNT), Ok(()));
    assert_eq!(world.counter(CHALLENGER, CANDIDATE, MINIMUM_CHALLENGE_AMOUNT), Ok(()));
    assert_eq!(world.vote(VOTER_FOR, CANDIDATE, true, 2), Ok(()));

    world.on_finalize(FINALIZE_CHALLENGE_PERIOD + NOW);

    assert_eq!(world.tcr.applications(CANDIDATE).is_some(), false);
    assert_eq!(world.tcr.challenges(CANDIDATE).is_some(), false);
    assert_eq!(world.tcr.members(CANDIDATE).is_some(), false); // Voted for rejection

    // Refunded only a part of the amount paid
    assert_eq!(
        world.usable_balance(CANDIDATE),
        loosers_slash(MINIMUM_APPLICATION_AMOUNT)
    );
    assert_eq!(world.usable_balance(VOTER_FOR), 1000 - loosers_slash(2));

    // The challenger is the only winner and receives all that was slashed.
    assert_eq!(
        world.usable_balance(CHALLENGER),
        MINIMUM_CHALLENGE_AMOUNT + loosers_slash(MINIMUM_APPLICATION_AMOUNT) + loosers_slash(2)
    );

    assert_eq!(world.amount_locked(CANDIDATE), 0);
    assert_eq!(world.amount_locked(VOTER_FOR), 0);
    assert_eq!(world.amount_locked(CHALLENGER), 0);
}

#[test]
fn tests_finalize_challenge_if_enough_time_elapsed_accept() {
    let mut world = funded();

    assert_eq!(world.apply(CANDIDATE, MINIMUM_APPLICATION_AMOUNT), Ok(()));
    assert_eq!(world.counter(CHALLENGER, CANDIDATE, MINIMUM_CHALLENGE_AMOUNT), Ok(()));
    assert_eq!(world.vote(VOTER_FOR, CANDIDATE, true, 1000), Ok(()));
    assert_eq!(world.vote(VOTER_AGAINST, CANDIDATE, false, 2), Ok(()));

    world.on_finalize(FINALIZE_CHALLENGE_PERIOD + NOW);

    assert_eq!(world.tcr.applications(CANDIDATE).is_some(), false);
    assert_eq!(world.tcr.challenges(CANDIDATE).is_some(), false);
    assert_eq!(world.tcr.members(CANDIDATE).is_some(), true);

    // Refunded only a part of the amount paid
    assert_eq!(
        world.usable_balance(CHALLENGER),
        loosers_slash(MINIMUM_CHALLENGE_AMOUNT)
    );
    assert_eq!(world.usable_balance(VOTER_AGAINST), 1000 - loosers_slash(2));

    // The pool of 501 goes to the winners: 455 to the voter, the rest to the candidate.
    assert_eq!(world.usable_balance(CANDIDATE), MINIMUM_APPLICATION_AMOUNT + 46);
    assert_eq!(world.usable_balance(VOTER_FOR), 1000 + 455);

    assert_eq!(world.amount_locked(CANDIDATE), 0);
    assert_eq!(world.amount_locked(VOTER_FOR), 0);
    assert_eq!(world.amount_locked(VOTER_AGAINST), 0);
    assert_eq!(world.amount_locked(CHALLENGER), 0);
}

#[test]
fn tests_does_not_finalize_challenge_if_not_enough_time_elapsed() {
    let mut world = funded();

    assert_eq!(world.apply(CANDIDATE, MINIMUM_APPLICATION_AMOUNT), Ok(()));
    assert_eq!(world.counter(CHALLENGER, CANDIDATE, MINIMUM_CHALLENGE_AMOUNT), Ok(()));

    world.on_finalize(FINALIZE_CHALLENGE_PERIOD + NOW - 1);

    assert_eq!(world.tcr.applications(CANDIDATE).is_some(), false);
    assert_eq!(world.tcr.challenges(CANDIDATE).is_some(), true);
    assert_eq!(world.tcr.members(CANDIDATE).is_some(), false);
}
