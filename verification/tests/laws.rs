use curated_pki::application::Application;
use curated_pki::balances::Balances;
use curated_pki::ledger::Ledger;
use curated_pki::mock::TestChangeMembers;
use curated_pki::permille::Permille;
use curated_pki::settlement::settle_challenge;
use curated_pki::tcr::{Config, Module};

const ACCOUNTS: [u64; 6] = [1, 2, 3, 4, 5, 6];

fn config() -> Config {
    Config {
        minimum_application_amount: 100,
        minimum_counter_amount: 1000,
        minimum_challenge_amount: 10000,
        finalize_application_period: 100,
        finalize_challenge_period: 101,
        loosers_slash: Permille::from_percent(50),
    }
}

fn funded() -> Balances {
    let mut ledger = Balances::new();
    for who in ACCOUNTS {
        ledger.deposit_creating(who, 5000);
    }
    ledger
}

fn stake_in(record: &Application, who: u64) -> u64 {
    let mut stake = 0;
    if record.candidate == who {
        stake += record.candidate_deposit;
    }
    if record.challenger == Some(who) {
        stake += record.challenger_deposit.unwrap_or(0);
    }
    for (voter, amount) in record.voters_for.iter().chain(record.voters_against.iter()) {
        if *voter == who {
            stake += amount;
        }
    }
    stake
}

fn staked(tcr: &Module, who: u64) -> u64 {
    let mut stake = 0;
    for candidate in ACCOUNTS {
        if let Some(record) = tcr.applications(candidate) {
            stake += stake_in(record, who);
        }
        if let Some(record) = tcr.challenges(candidate) {
            stake += stake_in(record, who);
        }
    }
    stake
}

fn assert_backed(tcr: &Module, ledger: &Balances) {
    for who in ACCOUNTS {
        assert_eq!(ledger.reserved_balance(who), staked(tcr, who), "account {}", who);
    }
}

fn assert_tallied(tcr: &Module) {
    for candidate in ACCOUNTS {
        let records = [tcr.applications(candidate), tcr.challenges(candidate)];
        for record in records.into_iter().flatten() {
            let sum_for: u64 = record.voters_for.iter().map(|stake| stake.1).sum();
            let sum_against: u64 = record.voters_against.iter().map(|stake| stake.1).sum();
            assert_eq!(record.votes_for.unwrap_or(0), sum_for);
            assert_eq!(record.votes_against.unwrap_or(0), sum_against);
            assert_eq!(record.votes_for.is_none(), record.voters_for.is_empty());
            assert_eq!(record.votes_against.is_none(), record.voters_against.is_empty());
        }
    }
}

#[test]
fn reserves_are_what_is_at_stake_and_vote_totals_are_the_sums_of_the_votes() {
    let mut ledger = funded();
    let mut tcr = Module::new(config());
    let mut sink = TestChangeMembers::new();
    assert_backed(&tcr, &ledger);

    assert!(tcr.apply(&mut ledger, 1, vec![], 100, 0).is_ok());
    assert_backed(&tcr, &ledger);
    assert!(tcr.apply(&mut ledger, 2, vec![], 200, 0).is_ok());
    assert_backed(&tcr, &ledger);
    assert!(tcr.counter(&mut ledger, 3, 1, 1000, 0).is_ok());
    assert_backed(&tcr, &ledger);
    // The candidate 2 contests the application 1 as well, and then votes on both sides.
    assert!(tcr.counter(&mut ledger, 1, 2, 1500, 0).is_ok());
    assert_backed(&tcr, &ledger);
    assert!(tcr.vote(&mut ledger, 2, 1, true, 300).is_ok());
    assert!(tcr.vote(&mut ledger, 2, 1, false, 40).is_ok());
    assert!(tcr.vote(&mut ledger, 4, 1, true, 1000).is_ok());
    assert!(tcr.vote(&mut ledger, 4, 2, true, 2000).is_ok());
    assert!(tcr.vote(&mut ledger, 5, 2, false, 5).is_ok());
    assert_backed(&tcr, &ledger);
    assert_tallied(&tcr);
    assert_eq!(ledger.reserved_balance(1), 100 + 1500);
    assert_eq!(ledger.reserved_balance(2), 200 + 300 + 40);
    assert_eq!(ledger.reserved_balance(4), 3000);
    assert_eq!(ledger.reserved_balance(6), 0);

    // Refused calls change nothing.
    assert!(tcr.vote(&mut ledger, 6, 1, true, 5001).is_err());
    assert!(tcr.apply(&mut ledger, 1, vec![], 100, 0).is_err());
    assert_backed(&tcr, &ledger);

    // Both challenges are resolved in one block; no application is admitted.
    let _ = tcr.on_finalize(&mut ledger, &mut sink, 101);
    assert!(tcr.challenges(1).is_none() && tcr.challenges(2).is_none());
    assert_backed(&tcr, &ledger);
    for who in ACCOUNTS {
        assert_eq!(ledger.reserved_balance(who), 0);
    }
    assert_eq!(sink.current(), &vec![1, 2]);
    assert!(sink.consistent());
}

#[test]
fn the_deposit_of_an_admitted_application_stays_in_reserve() {
    let mut ledger = funded();
    let mut tcr = Module::new(config());
    let mut sink = TestChangeMembers::new();
    assert!(tcr.apply(&mut ledger, 1, vec![], 100, 0).is_ok());
    assert_backed(&tcr, &ledger);
    let _ = tcr.on_finalize(&mut ledger, &mut sink, 100);
    assert_eq!(staked(&tcr, 1), 0);
    assert_eq!(ledger.reserved_balance(1), 100);
    // A challenge counts the deposit as a stake again.
    assert!(tcr.challenge(&mut ledger, 2, 1, 10000 - 5000, 100).is_err());
    ledger.deposit_creating(2, 5000);
    assert!(tcr.challenge(&mut ledger, 2, 1, 10000, 100).is_ok());
    assert_backed(&tcr, &ledger);
}

#[test]
fn no_more_is_credited_than_was_slashed() {
    let record = Application {
        candidate: 1,
        candidate_deposit: 101,
        metadata: vec![],
        challenger: Some(2),
        challenger_deposit: Some(1000),
        votes_for: Some(37),
        voters_for: vec![(3, 30), (4, 7)],
        votes_against: Some(13),
        voters_against: vec![(5, 13)],
        created_block: 0,
        challenged_block: 0,
    };
    for parts in [0u32, 1, 250, 333, 500, 999, 1000] {
        // With and without an account for the challenger, who takes what is left.
        for challenger_exists in [true, false] {
            let mut ledger = Balances::new();
            for (who, amount) in [(1u64, 101u64), (3, 30), (4, 7), (5, 13)] {
                ledger.deposit_creating(who, amount);
                assert_eq!(ledger.reserve(who, amount), Ok(()));
            }
            if challenger_exists {
                ledger.deposit_creating(2, 1000);
                assert_eq!(ledger.reserve(2, 1000), Ok(()));
            }
            let issuance = ledger.total_issuance();
            let rate = Permille::from_parts(parts);
            let expected_pool = rate.of(30) + rate.of(7) + rate.of(101);
            let (slashed, credited) = settle_challenge(&mut ledger, rate, &record);
            assert_eq!(slashed, expected_pool);
            assert!(credited <= slashed);
            let share = ((13u128 * slashed as u128) / 1013) as u64;
            if challenger_exists {
                assert_eq!(credited, slashed);
                assert_eq!(ledger.free_balance(2), 1000 + slashed - share);
            } else {
                assert_eq!(credited, share);
            }
            assert_eq!(ledger.free_balance(5), 13 + share);
            assert_eq!(ledger.total_issuance(), issuance - slashed + credited);
        }
    }
}

#[test]
fn membership_follows_the_last_resolution() {
    let mut ledger = Balances::new();
    ledger.deposit_creating(1, 1000);
    ledger.deposit_creating(2, 50_000);
    ledger.deposit_creating(3, 50_000);
    let mut tcr = Module::new(config());
    let mut sink = TestChangeMembers::new();

    // Contested and carried: a member.
    assert!(tcr.apply(&mut ledger, 1, vec![], 100, 0).is_ok());
    assert!(tcr.counter(&mut ledger, 2, 1, 1000, 0).is_ok());
    assert!(tcr.vote(&mut ledger, 3, 1, true, 1000).is_ok());
    assert!(tcr.members(1).is_none());
    let _ = tcr.on_finalize(&mut ledger, &mut sink, 101);
    assert!(tcr.members(1).is_some());

    // Calls do not change the membership; only the end of a block does.
    assert!(tcr.challenge(&mut ledger, 2, 1, 10000, 101).is_ok());
    assert!(tcr.vote(&mut ledger, 3, 1, false, 1).is_ok());
    assert!(tcr.members(1).is_some());
    let _ = tcr.on_finalize(&mut ledger, &mut sink, 201);
    assert!(tcr.members(1).is_some());

    // Challenged and lost: no member.
    let _ = tcr.on_finalize(&mut ledger, &mut sink, 202);
    assert!(tcr.members(1).is_none());
    assert_eq!(sink.current(), &Vec::<u64>::new());

    // A challenge needs a member.
    assert!(tcr.challenge(&mut ledger, 2, 1, 10000, 202).is_err());

    // Admitted again without contest: a member.
    assert!(tcr.apply(&mut ledger, 1, vec![], 100, 202).is_ok());
    let _ = tcr.on_finalize(&mut ledger, &mut sink, 301);
    assert!(tcr.members(1).is_none());
    let _ = tcr.on_finalize(&mut ledger, &mut sink, 302);
    assert!(tcr.members(1).is_some());
    assert_eq!(sink.current(), &vec![1]);
}

fn assert_funded(tcr: &Module) {
    let rules = config();
    for candidate in ACCOUNTS {
        let member = tcr.members(candidate).is_some();
        let all = [tcr.applications(candidate), tcr.challenges(candidate), tcr.members(candidate)];
        for record in all.into_iter().flatten() {
            assert!(record.candidate_deposit >= rules.minimum_application_amount);
        }
        if let Some(record) = tcr.challenges(candidate) {
            let deposit = record.challenger_deposit.unwrap();
            assert!(
                deposit >= rules.minimum_counter_amount
                    || (member && deposit >= rules.minimum_challenge_amount)
            );
        }
    }
}

#[test]
fn every_record_keeps_deposits_of_at_least_the_minima() {
    let mut ledger = Balances::new();
    for who in ACCOUNTS {
        ledger.deposit_creating(who, 50_000);
    }
    let mut tcr = Module::new(config());
    let mut sink = TestChangeMembers::new();
    assert_funded(&tcr);

    // Deposits below the minima are refused and leave no record.
    assert!(tcr.apply(&mut ledger, 1, vec![], 99, 0).is_err());
    assert!(tcr.apply(&mut ledger, 1, vec![], 100, 0).is_ok());
    assert!(tcr.apply(&mut ledger, 2, vec![], 150, 0).is_ok());
    assert!(tcr.counter(&mut ledger, 3, 2, 999, 0).is_err());
    assert!(tcr.counter(&mut ledger, 3, 2, 1000, 0).is_ok());
    assert!(tcr.vote(&mut ledger, 4, 2, true, 2000).is_ok());
    assert_funded(&tcr);

    let _ = tcr.on_finalize(&mut ledger, &mut sink, 101);
    assert_eq!(sink.current(), &vec![1, 2]);
    assert_funded(&tcr);

    assert!(tcr.challenge(&mut ledger, 5, 1, 9_999, 101).is_err());
    assert!(tcr.challenge(&mut ledger, 5, 1, 10_000, 101).is_ok());
    assert!(tcr.challenge(&mut ledger, 6, 2, 12_000, 101).is_ok());
    assert!(tcr.vote(&mut ledger, 4, 2, true, 20_000).is_ok());
    assert_funded(&tcr);

    let _ = tcr.on_finalize(&mut ledger, &mut sink, 202);
    assert_eq!(sink.current(), &vec![2]);
    assert_funded(&tcr);
    assert_eq!(tcr.members(2).unwrap().candidate_deposit, 150);
    assert_eq!(tcr.members(2).unwrap().challenger_deposit, Some(12_000));
}
