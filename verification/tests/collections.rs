use curated_pki::application::Application;
use curated_pki::members::{
    contains_account, copy_accounts, join_accounts, same_accounts, sort_accounts, ChangeMembers,
};
use curated_pki::mock::TestChangeMembers;
use curated_pki::registry::Registry;

fn application(candidate: u64, deposit: u64) -> Application {
    Application::new(candidate, vec![candidate as u8], deposit, 0)
}

#[test]
fn a_fresh_application_holds_no_challenger_and_no_vote() {
    let made = Application::new(7, vec![1, 2, 3], 150, 42);
    assert_eq!(
        made,
        Application {
            candidate: 7,
            candidate_deposit: 150,
            metadata: vec![1, 2, 3],
            challenger: None,
            challenger_deposit: None,
            votes_for: None,
            voters_for: vec![],
            votes_against: None,
            voters_against: vec![],
            created_block: 42,
            challenged_block: 0,
        }
    );
    assert_eq!(made.clone(), made);
    assert!(made.is_tallied());
}

#[test]
fn sum_stakes_adds_up_or_gives_up() {
    assert_eq!(Application::sum_stakes(&vec![]), Some(0));
    assert_eq!(Application::sum_stakes(&vec![(1, 5), (2, 7), (1, 9)]), Some(21));
    assert_eq!(Application::sum_stakes(&vec![(1, u64::MAX - 1), (2, 1)]), Some(u64::MAX));
    assert_eq!(Application::sum_stakes(&vec![(1, u64::MAX - 1), (2, 2)]), None);
}

#[test]
fn vote_totals_have_to_agree_with_the_votes() {
    let mut record = application(1, 10);
    record.voters_for = vec![(4, 5), (5, 6)];
    assert!(!record.is_tallied());
    record.votes_for = Some(10);
    assert!(!record.is_tallied());
    record.votes_for = Some(11);
    assert!(record.is_tallied());
    record.votes_against = Some(0);
    assert!(!record.is_tallied());
    record.voters_against = vec![(6, 0)];
    assert!(record.is_tallied());
}

#[test]
fn a_registry_keeps_its_records_in_order() {
    let mut registry = Registry::new();
    for candidate in [9u64, 3, 5, 1, 7] {
        registry.insert(application(candidate, candidate * 10));
    }
    assert_eq!(registry.len(), 5);
    assert_eq!(registry.keys(), vec![1, 3, 5, 7, 9]);
    assert_eq!(registry.position(5), 2);
    assert_eq!(registry.position(6), 3);
    assert_eq!(registry.position(0), 0);
    assert_eq!(registry.position(10), 5);
    assert_eq!(registry.entry(1).candidate, 3);
    assert_eq!(registry.contains_key(7), true);
    assert_eq!(registry.contains_key(8), false);
    assert_eq!(registry.get(9).unwrap().candidate_deposit, 90);
    assert_eq!(registry.get(2), None);
}

#[test]
fn a_registry_holds_one_record_per_candidate() {
    let mut registry = Registry::new();
    registry.insert(application(3, 30));
    registry.insert(application(1, 10));
    registry.insert(application(3, 33));
    assert_eq!(registry.keys(), vec![1, 3]);
    assert_eq!(registry.get(3).unwrap().candidate_deposit, 33);

    assert_eq!(registry.remove(2), None);
    assert_eq!(registry.remove(1), Some(application(1, 10)));
    assert_eq!(registry.keys(), vec![3]);
    assert_eq!(registry.remove(1), None);
    assert_eq!(registry.remove(3), Some(application(3, 33)));
    assert_eq!(registry.len(), 0);
}

#[test]
fn a_registry_is_made_of_ordered_entries_only() {
    assert_eq!(Registry::from_entries(vec![]).unwrap().len(), 0);
    let made =
        Registry::from_entries(vec![application(1, 1), application(2, 2), application(8, 8)]);
    assert_eq!(made.unwrap().keys(), vec![1, 2, 8]);
    assert_eq!(Registry::from_entries(vec![application(2, 2), application(1, 1)]), None);
    assert_eq!(Registry::from_entries(vec![application(1, 1), application(1, 2)]), None);
    assert_eq!(
        Registry::from_entries(vec![application(1, 1), application(3, 3), application(2, 2)]),
        None
    );
}

#[test]
fn sort_accounts_keeps_every_account() {
    assert_eq!(sort_accounts(&[]), Vec::<u64>::new());
    assert_eq!(sort_accounts(&[5]), vec![5]);
    assert_eq!(sort_accounts(&[5, 1, 4, 1, 9, 0]), vec![0, 1, 1, 4, 5, 9]);
    assert_eq!(sort_accounts(&[3, 2, 1]), vec![1, 2, 3]);
    assert_eq!(sort_accounts(&[u64::MAX, 0, u64::MAX]), vec![0, u64::MAX, u64::MAX]);
}

#[test]
fn lists_of_accounts() {
    assert_eq!(copy_accounts(&[3, 1, 2]), vec![3, 1, 2]);
    assert_eq!(join_accounts(&[3, 1], &[2, 3]), vec![3, 1, 2, 3]);
    assert_eq!(join_accounts(&[], &[]), Vec::<u64>::new());
    assert_eq!(same_accounts(&vec![1, 2], &vec![1, 2]), true);
    assert_eq!(same_accounts(&vec![1, 2], &vec![2, 1]), false);
    assert_eq!(same_accounts(&vec![1, 2], &vec![1, 2, 3]), false);
    assert_eq!(contains_account(&vec![4, 5, 6], 5), true);
    assert_eq!(contains_account(&vec![4, 5, 6], 7), false);
    assert_eq!(contains_account(&vec![], 0), false);
}

#[test]
fn the_subscriber_of_the_fixture_checks_what_it_is_told() {
    let mut sink = TestChangeMembers::new();
    assert!(sink.consistent());
    sink.change_members_sorted(&[1, 2], &[], &[1, 2]);
    assert!(sink.consistent());
    assert_eq!(sink.current(), &vec![1, 2]);
    sink.change_members_sorted(&[3], &[1], &[2, 3]);
    assert!(sink.consistent());
    assert_eq!(sink.current(), &vec![2, 3]);
    // An account that comes in although it is a member already.
    sink.change_members_sorted(&[2], &[], &[2, 3]);
    assert!(!sink.consistent());
    assert_eq!(sink.current(), &vec![2, 3]);
    // The flag stays down.
    sink.change_members_sorted(&[], &[3], &[2]);
    assert!(!sink.consistent());
    assert_eq!(sink.current(), &vec![2]);
}

#[test]
fn a_subscriber_takes_the_lists_as_they_come() {
    let mut sink = TestChangeMembers::new();
    sink.change_members_sorted(&[9, 4, 4], &[], &[4, 9, 4]);
    assert!(sink.consistent());
    assert_eq!(sink.current(), &vec![4, 9, 4]);
    sink.change_members_sorted(&[1], &[9, 4], &[4, 1]);
    assert!(sink.consistent());
    assert_eq!(sink.current(), &vec![4, 1]);
}
