use curated_pki::balances::Balances;
use curated_pki::ledger::Ledger;
use curated_pki::members::ChangeMembers;
use curated_pki::mock::Test;
use curated_pki::root_of_trust::{Error, Event, FundsCollector, Module, RootCertificate};
use curated_pki::tcr;

const ROOT_MANAGER: u64 = 1;
const OFFCHAIN_CERTIFICATE_SIGNER_1: u64 = 2;
const OFFCHAIN_CERTIFICATE_SIGNER_2: u64 = 3;
const OFFCHAIN_CERTIFICATE_SIGNER_3: u64 = 4;

fn minimum_application_amount() -> u64 {
    Test::tcr().minimum_application_amount
}

fn finalize_application_period() -> u64 {
    Test::tcr().finalize_application_period
}

fn slot_cost() -> u64 {
    Test::root_of_trust().slot_booking_cost
}

fn slot_validity() -> u64 {
    Test::root_of_trust().slot_validity
}

#[derive(Debug, PartialEq)]
struct Snapshot {
    tcr: tcr::Module,
    members: Vec<u64>,
    slots: Vec<Option<RootCertificate>>,
    ledger: Balances,
    collector: FundsCollector,
}

struct World {
    tcr: tcr::Module,
    root_of_trust: Module,
    ledger: Balances,
    collector: FundsCollector,
    block_number: u64,
}

fn new_test_ext() -> World {
    World {
        tcr: tcr::Module::new(Test::tcr()),
        root_of_trust: Module::new(Test::root_of_trust()),
        ledger: Balances::new(),
        collector: FundsCollector::new(),
        block_number: 0,
    }
}

fn allocate_balances(world: &mut World) {
    world.ledger.deposit_creating(ROOT_MANAGER, minimum_application_amount() + slot_cost());
}

fn do_register(world: &mut World) {
    assert!(world
        .tcr
        .apply(
            &mut world.ledger,
            ROOT_MANAGER,
            vec![],
            minimum_application_amount(),
            world.block_number
        )
        .is_ok());
    let _ = world.tcr.on_finalize(
        &mut world.ledger,
        &mut world.root_of_trust,
        finalize_application_period() + world.block_number,
    );
}

impl World {
    fn book_slot(&mut self, origin: u64, certificate_id: u64) -> Result<Event, Error> {
        self.root_of_trust.book_slot(
            &mut self.ledger,
            &mut self.collector,
            origin,
            certificate_id,
            self.block_number,
        )
    }

    fn renew_slot(&mut self, origin: u64, certificate: u64) -> Result<Event, Error> {
        self.root_of_trust.renew_slot(
            &mut self.ledger,
            &mut self.collector,
            origin,
            certificate,
            self.block_number,
        )
    }

    fn is_root_certificate_valid(&self, cert: u64) -> bool {
        self.root_of_trust.is_root_certificate_valid(&cert, self.block_number)
    }

    fn is_child_certificate_valid(&self, root: u64, child: u64) -> bool {
        self.root_of_trust.is_child_certificate_valid(&root, &child, self.block_number)
    }

    /// The slots of all the certificates that these tests use.
    fn slots(&self) -> Vec<Option<RootCertificate>> {
        (0..8).map(|certificate| self.root_of_trust.slots(certificate).cloned()).collect()
    }

    fn snapshot(&self) -> Snapshot {
        Snapshot {
            tcr: self.tcr.clone(),
            members: self.root_of_trust.members().clone(),
            slots: self.slots(),
            ledger: self.ledger.clone(),
            collector: self.collector.clone(),
        }
    }

    fn assert_unchanged(&self, before: &Snapshot) {
        assert_eq!(&self.snapshot(), before);
    }
}

#[test]
fn tcr_membership_propagate() {
    let mut world = new_test_ext();
    allocate_balances(&mut world);
    do_register(&mut world);

    assert_eq!(world.root_of_trust.is_member(&ROOT_MANAGER), true);
    assert_eq!(world.root_of_trust.is_member(&OFFCHAIN_CERTIFICATE_SIGNER_1), false);
}

#[test]
fn non_member_can_not_buy_slots() {
    let mut world = new_test_ext();
    allocate_balances(&mut world);

    let before = world.snapshot();
    assert_eq!(
        world.book_slot(ROOT_MANAGER, OFFCHAIN_CERTIFICATE_SIGNER_1),
        Err(Error::NotAMember)
    );
    world.assert_unchanged(&before);
}

#[test]
fn can_not_buy_slot_twice() {
    let mut world = new_test_ext();
    allocate_balances(&mut world);
    do_register(&mut world);

    assert_eq!(
        world.book_slot(ROOT_MANAGER, OFFCHAIN_CERTIFICATE_SIGNER_1),
        Ok(Event::SlotTaken(ROOT_MANAGER, OFFCHAIN_CERTIFICATE_SIGNER_1))
    );
    let before = world.snapshot();
    assert_eq!(
        world.book_slot(ROOT_MANAGER, OFFCHAIN_CERTIFICATE_SIGNER_1),
        Err(Error::SlotTaken)
    );
    world.assert_unchanged(&before);
}

#[test]
fn can_not_buy_slot_if_not_enough_funds() {
    let mut world = new_test_ext();
    allocate_balances(&mut world);
    do_register(&mut world);

    assert!(world.book_slot(ROOT_MANAGER, OFFCHAIN_CERTIFICATE_SIGNER_1).is_ok());
    let before = world.snapshot();
    assert_eq!(
        world.book_slot(ROOT_MANAGER, OFFCHAIN_CERTIFICATE_SIGNER_2),
        Err(Error::NotEnoughFunds)
    );
    world.assert_unchanged(&before);
}

#[test]
fn member_can_buy_slots() {
    let mut world = new_test_ext();
    allocate_balances(&mut world);
    do_register(&mut world);

    assert!(world.book_slot(ROOT_MANAGER, OFFCHAIN_CERTIFICATE_SIGNER_1).is_ok());
    let slot = world.root_of_trust.slots(OFFCHAIN_CERTIFICATE_SIGNER_1).unwrap();
    assert_eq!(slot.key, OFFCHAIN_CERTIFICATE_SIGNER_1);
    assert_eq!(slot.owner, ROOT_MANAGER);
    assert_eq!(slot.created, world.block_number);
    assert_eq!(slot.renewed, world.block_number);
    assert_eq!(slot.revoked, false);
    assert_eq!(slot.validity, slot_validity());
    assert_eq!(slot.child_revocations, vec![]);

    // Took the cost of the slot: what is left is the deposit of the application.
    assert_eq!(
        world.ledger.free_balance(ROOT_MANAGER) + world.ledger.reserved_balance(ROOT_MANAGER),
        minimum_application_amount()
    );
    assert_eq!(world.collector.receipts(), &vec![slot_cost()]);
}

#[test]
fn root_certificate_is_valid() {
    let mut world = new_test_ext();
    allocate_balances(&mut world);
    do_register(&mut world);

    assert!(world.book_slot(ROOT_MANAGER, OFFCHAIN_CERTIFICATE_SIGNER_1).is_ok());

    assert_eq!(world.is_root_certificate_valid(OFFCHAIN_CERTIFICATE_SIGNER_1), true);
}

#[test]
fn root_certificate_not_valid_if_revoked() {
    let mut world = new_test_ext();
    allocate_balances(&mut world);
    do_register(&mut world);

    let now = world.block_number;
    world.root_of_trust.put_slot(RootCertificate {
        owner: ROOT_MANAGER,
        key: OFFCHAIN_CERTIFICATE_SIGNER_1,
        created: now,
        renewed: now,
        revoked: true,
        validity: slot_validity(),
        child_revocations: vec![],
    });

    assert_eq!(world.is_root_certificate_valid(OFFCHAIN_CERTIFICATE_SIGNER_1), false);
}

#[test]
fn root_certificate_not_valid_if_expired() {
    let mut world = new_test_ext();
    allocate_balances(&mut world);
    do_register(&mut world);

    assert!(world.book_slot(ROOT_MANAGER, OFFCHAIN_CERTIFICATE_SIGNER_1).is_ok());

    world.block_number = slot_validity() + 1;

    assert_eq!(world.is_root_certificate_valid(OFFCHAIN_CERTIFICATE_SIGNER_1), false);
}

#[test]
fn root_certificate_not_valid_if_owner_is_no_longer_a_member() {
    let mut world = new_test_ext();
    let now = world.block_number;
    world.root_of_trust.put_slot(RootCertificate {
        owner: ROOT_MANAGER,
        key: OFFCHAIN_CERTIFICATE_SIGNER_1,
        created: now,
        renewed: now,
        revoked: false,
        validity: slot_validity(),
        child_revocations: vec![],
    });

    assert_eq!(world.is_root_certificate_valid(OFFCHAIN_CERTIFICATE_SIGNER_1), false);
}

#[test]
fn root_certificate_not_valid_if_does_not_exists() {
    let world = new_test_ext();
    assert_eq!(world.is_root_certificate_valid(OFFCHAIN_CERTIFICATE_SIGNER_1), false);
}

#[test]
fn child_certificate_still_valid_if_revoked_under_non_parent_certificate() {
    let mut world = new_test_ext();
    allocate_balances(&mut world);
    do_register(&mut world);

    assert!(world.book_slot(ROOT_MANAGER, OFFCHAIN_CERTIFICATE_SIGNER_1).is_ok());

    let now = world.block_number;
    world.root_of_trust.put_slot(RootCertificate {
        owner: ROOT_MANAGER,
        key: OFFCHAIN_CERTIFICATE_SIGNER_3,
        created: now,
        renewed: now,
        revoked: false,
        validity: slot_validity(),
        child_revocations: vec![OFFCHAIN_CERTIFICATE_SIGNER_2],
    });

    assert_eq!(world.is_root_certificate_valid(OFFCHAIN_CERTIFICATE_SIGNER_1), true);
    assert_eq!(world.is_root_certificate_valid(OFFCHAIN_CERTIFICATE_SIGNER_3), true);

    assert_eq!(
        world.is_child_certificate_valid(
            OFFCHAIN_CERTIFICATE_SIGNER_1,
            OFFCHAIN_CERTIFICATE_SIGNER_2
        ),
        true
    );
}

#[test]
fn child_certificate_not_valid_if_revoked_in_root_certificate() {
    let mut world = new_test_ext();
    allocate_balances(&mut world);
    do_register(&mut world);

    let now = world.block_number;
    world.root_of_trust.put_slot(RootCertificate {
        owner: ROOT_MANAGER,
        key: OFFCHAIN_CERTIFICATE_SIGNER_1,
        created: now,
        renewed: now,
        revoked: false,
        validity: slot_validity(),
        child_revocations: vec![OFFCHAIN_CERTIFICATE_SIGNER_2],
    });

    assert_eq!(world.is_root_certificate_valid(OFFCHAIN_CERTIFICATE_SIGNER_1), true);

    assert_eq!(
        world.is_child_certificate_valid(
            OFFCHAIN_CERTIFICATE_SIGNER_1,
            OFFCHAIN_CERTIFICATE_SIGNER_2
        ),
        false
    );
}

#[test]
fn child_certificate_not_valid_if_root_certificate_not_valid() {
    let world = new_test_ext();
    assert_eq!(world.is_root_certificate_valid(OFFCHAIN_CERTIFICATE_SIGNER_1), false);

    assert_eq!(
        world.is_child_certificate_valid(
            OFFCHAIN_CERTIFICATE_SIGNER_1,
            OFFCHAIN_CERTIFICATE_SIGNER_2
        ),
        false
    );
}

#[test]
fn child_certificate_is_valid() {
    let mut world = new_test_ext();
    allocate_balances(&mut world);
    do_register(&mut world);

    assert!(world.book_slot(ROOT_MANAGER, OFFCHAIN_CERTIFICATE_SIGNER_1).is_ok());

    assert_eq!(
        world.is_child_certificate_valid(
            OFFCHAIN_CERTIFICATE_SIGNER_1,
            OFFCHAIN_CERTIFICATE_SIGNER_2
        ),
        true
    );
}

#[test]
fn child_invalid_if_equal_root() {
    let mut world = new_test_ext();
    allocate_balances(&mut world);
    do_register(&mut world);

    assert!(world.book_slot(ROOT_MANAGER, OFFCHAIN_CERTIFICATE_SIGNER_1).is_ok());

    assert_eq!(
        world.is_child_certificate_valid(
            OFFCHAIN_CERTIFICATE_SIGNER_1,
            OFFCHAIN_CERTIFICATE_SIGNER_1
        ),
        false
    );
}

#[test]
fn renew_slot_sets_the_block_of_renewal_and_takes_the_fee() {
    let mut world = new_test_ext();
    world.ledger.deposit_creating(ROOT_MANAGER, minimum_application_amount() + 2 * slot_cost());
    do_register(&mut world);
    assert!(world.book_slot(ROOT_MANAGER, OFFCHAIN_CERTIFICATE_SIGNER_1).is_ok());

    world.block_number = 99_999;
    assert_eq!(
        world.renew_slot(ROOT_MANAGER, OFFCHAIN_CERTIFICATE_SIGNER_1),
        Ok(Event::SlotRenewed(ROOT_MANAGER, OFFCHAIN_CERTIFICATE_SIGNER_1))
    );
    let slot = world.root_of_trust.slots(OFFCHAIN_CERTIFICATE_SIGNER_1).unwrap();
    assert_eq!(slot.created, 0);
    assert_eq!(slot.renewed, 99_999);
    assert_eq!(world.ledger.free_balance(ROOT_MANAGER), 0);
    assert_eq!(world.collector.receipts(), &vec![slot_cost(), slot_cost()]);

    world.block_number = 199_998;
    assert_eq!(world.is_root_certificate_valid(OFFCHAIN_CERTIFICATE_SIGNER_1), true);
    world.block_number = 199_999;
    assert_eq!(world.is_root_certificate_valid(OFFCHAIN_CERTIFICATE_SIGNER_1), false);
}

#[test]
fn renew_slot_refuses_in_the_order_of_its_conditions() {
    let mut world = new_test_ext();
    allocate_balances(&mut world);
    do_register(&mut world);

    // No slot at all.
    let before = world.snapshot();
    assert_eq!(
        world.renew_slot(ROOT_MANAGER, OFFCHAIN_CERTIFICATE_SIGNER_1),
        Err(Error::NoLongerValid)
    );
    world.assert_unchanged(&before);

    assert!(world.book_slot(ROOT_MANAGER, OFFCHAIN_CERTIFICATE_SIGNER_1).is_ok());

    // Somebody else's slot.
    let before = world.snapshot();
    assert_eq!(
        world.renew_slot(OFFCHAIN_CERTIFICATE_SIGNER_2, OFFCHAIN_CERTIFICATE_SIGNER_1),
        Err(Error::NotTheOwner)
    );
    world.assert_unchanged(&before);

    // The fee of the booking has used up the funds.
    let before = world.snapshot();
    assert_eq!(
        world.renew_slot(ROOT_MANAGER, OFFCHAIN_CERTIFICATE_SIGNER_1),
        Err(Error::NotEnoughFunds)
    );
    world.assert_unchanged(&before);

    // The validity has run out.
    world.block_number += slot_validity() + 1;
    assert_eq!(world.is_root_certificate_valid(OFFCHAIN_CERTIFICATE_SIGNER_1), false);
    let before = world.snapshot();
    assert_eq!(
        world.renew_slot(ROOT_MANAGER, OFFCHAIN_CERTIFICATE_SIGNER_1),
        Err(Error::NoLongerValid)
    );
    world.assert_unchanged(&before);
}

#[test]
fn a_second_booking_is_refused_whoever_tries() {
    let mut world = new_test_ext();
    world.ledger.deposit_creating(ROOT_MANAGER, minimum_application_amount() + 2 * slot_cost());
    world.ledger.deposit_creating(7, minimum_application_amount() + slot_cost());
    do_register(&mut world);
    assert!(world
        .tcr
        .apply(&mut world.ledger, 7, vec![], minimum_application_amount(), 0)
        .is_ok());
    let _ = world.tcr.on_finalize(&mut world.ledger, &mut world.root_of_trust, 100);
    assert_eq!(world.root_of_trust.members(), &vec![ROOT_MANAGER, 7]);

    assert!(world.book_slot(ROOT_MANAGER, OFFCHAIN_CERTIFICATE_SIGNER_1).is_ok());
    // The owner, another member and an outsider.
    assert_eq!(
        world.book_slot(ROOT_MANAGER, OFFCHAIN_CERTIFICATE_SIGNER_1),
        Err(Error::SlotTaken)
    );
    assert_eq!(world.book_slot(7, OFFCHAIN_CERTIFICATE_SIGNER_1), Err(Error::SlotTaken));
    let before = world.snapshot();
    assert_eq!(
        world.book_slot(OFFCHAIN_CERTIFICATE_SIGNER_2, OFFCHAIN_CERTIFICATE_SIGNER_1),
        Err(Error::SlotTaken)
    );
    world.assert_unchanged(&before);
    // A slot that is free is refused to the outsider for what it is.
    assert_eq!(
        world.book_slot(OFFCHAIN_CERTIFICATE_SIGNER_2, OFFCHAIN_CERTIFICATE_SIGNER_3),
        Err(Error::NotAMember)
    );
}

#[test]
fn validity_is_lost_with_the_membership_of_the_owner() {
    let mut world = new_test_ext();
    allocate_balances(&mut world);
    world.ledger.deposit_creating(9, 10_000);
    do_register(&mut world);
    assert!(world.book_slot(ROOT_MANAGER, OFFCHAIN_CERTIFICATE_SIGNER_1).is_ok());
    assert_eq!(world.is_root_certificate_valid(OFFCHAIN_CERTIFICATE_SIGNER_1), true);

    // The owner is challenged and loses: nobody stands against a deposit of 10000.
    assert!(world.tcr.challenge(&mut world.ledger, 9, ROOT_MANAGER, 10_000, 10).is_ok());
    let report = world.tcr.on_finalize(&mut world.ledger, &mut world.root_of_trust, 111);
    assert_eq!(report.outgoing, vec![ROOT_MANAGER]);
    assert_eq!(report.incoming, Vec::<u64>::new());

    world.block_number = 111;
    assert_eq!(world.root_of_trust.is_member(&ROOT_MANAGER), false);
    assert_eq!(world.is_root_certificate_valid(OFFCHAIN_CERTIFICATE_SIGNER_1), false);
    // The slot is still there.
    assert!(world.root_of_trust.slots(OFFCHAIN_CERTIFICATE_SIGNER_1).is_some());
}

#[test]
fn the_table_takes_the_membership_whatever_the_lists_hold() {
    let mut world = new_test_ext();
    allocate_balances(&mut world);
    do_register(&mut world);
    assert!(world.book_slot(ROOT_MANAGER, OFFCHAIN_CERTIFICATE_SIGNER_1).is_ok());
    let slots = world.slots();

    world.root_of_trust.change_members_sorted(&[7, 3], &[5, 5], &[9, ROOT_MANAGER, 9]);
    assert_eq!(world.root_of_trust.members(), &vec![9, ROOT_MANAGER, 9]);
    assert_eq!(world.root_of_trust.is_member(&9), true);
    assert_eq!(world.slots(), slots);
    assert_eq!(world.is_root_certificate_valid(OFFCHAIN_CERTIFICATE_SIGNER_1), true);

    world.root_of_trust.change_members_sorted(&[ROOT_MANAGER], &[], &[]);
    assert_eq!(world.root_of_trust.members(), &Vec::<u64>::new());
    assert_eq!(world.slots(), slots);
    assert_eq!(world.is_root_certificate_valid(OFFCHAIN_CERTIFICATE_SIGNER_1), false);
}

#[test]
fn a_taken_slot_is_refused_before_anything_else_is_asked() {
    let mut world = new_test_ext();
    world.root_of_trust.put_slot(RootCertificate {
        owner: ROOT_MANAGER,
        key: OFFCHAIN_CERTIFICATE_SIGNER_1,
        created: 0,
        renewed: 0,
        revoked: true,
        validity: 0,
        child_revocations: vec![OFFCHAIN_CERTIFICATE_SIGNER_2],
    });
    let valid = world.is_root_certificate_valid(OFFCHAIN_CERTIFICATE_SIGNER_1);
    // Nobody is a member and nobody has funds: the slot is taken all the same.
    for caller in [ROOT_MANAGER, OFFCHAIN_CERTIFICATE_SIGNER_1, 77] {
        let before = world.snapshot();
        assert_eq!(
            world.book_slot(caller, OFFCHAIN_CERTIFICATE_SIGNER_1),
            Err(Error::SlotTaken)
        );
        world.assert_unchanged(&before);
        assert_eq!(world.is_root_certificate_valid(OFFCHAIN_CERTIFICATE_SIGNER_1), valid);
    }
}
