//! The root of trust: a table of certificate slots that the members of the registry book and
//! renew, and the predicates that tell which certificates are valid.
//!
//! A slot is never deleted. Whether its certificate is valid follows from the slot, from the
//! membership of its owner and from the block number.

use crate::ledger::{Ledger, LedgerView};
use crate::members::{contains_account, copy_accounts, ChangeMembers, Notice};
use crate::types::{AccountId, Balance, BlockNumber, CertificateId};
use vstd::prelude::*;

verus! {

/// The slot of one root certificate.
#[derive(Debug, PartialEq, Eq)]
pub struct RootCertificate {
    /// The account that booked the slot.
    pub owner: AccountId,
    /// The certificate that the slot is for.
    pub key: CertificateId,
    /// The block at which the slot was booked.
    pub created: BlockNumber,
    /// The block at which the slot was last renewed.
    pub renewed: BlockNumber,
    /// Whether the certificate was revoked.
    pub revoked: bool,
    /// The number of blocks for which the certificate is valid after a renewal.
    pub validity: BlockNumber,
    /// The child certificates that were revoked under this root.
    pub child_revocations: Vec<CertificateId>,
}

/// A slot as a mathematical value.
pub struct RootCertificateView {
    pub owner: AccountId,
    pub key: CertificateId,
    pub created: BlockNumber,
    pub renewed: BlockNumber,
    pub revoked: bool,
    pub validity: BlockNumber,
    pub child_revocations: Seq<CertificateId>,
}

impl View for RootCertificate {
    type V = RootCertificateView;

    open spec fn view(&self) -> RootCertificateView {
        RootCertificateView {
            owner: self.owner,
            key: self.key,
            created: self.created,
            renewed: self.renewed,
            revoked: self.revoked,
            validity: self.validity,
            child_revocations: self.child_revocations@,
        }
    }
}

impl Clone for RootCertificate {
    fn clone(&self) -> (copy: Self)
        ensures
            copy@ == self@,
    {
        RootCertificate {
            owner: self.owner,
            key: self.key,
            created: self.created,
            renewed: self.renewed,
            revoked: self.revoked,
            validity: self.validity,
            child_revocations: copy_accounts(self.child_revocations.as_slice()),
        }
    }
}

/// The rules of a table of slots, fixed when it is made.
#[derive(Clone, Copy, Debug, PartialEq, Eq)]
pub struct Config {
    /// The fee for booking a slot.
    pub slot_booking_cost: Balance,
    /// The fee for renewing a slot.
    pub slot_renewing_cost: Balance,
    /// The number of blocks for which a certificate is valid after a renewal.
    pub slot_validity: BlockNumber,
}

/// Why the table refused a call.
#[derive(Clone, Copy, Debug, PartialEq, Eq)]
pub enum Error {
    /// The caller is no member.
    NotAMember,
    /// The slot is booked already.
    SlotTaken,
    /// The caller cannot pay the fee.
    NotEnoughFunds,
    /// The slot does not exist or its certificate is no longer valid.
    NoLongerValid,
    /// The caller does not own the slot.
    NotTheOwner,
}

/// What the table reports of a call.
#[derive(Clone, Copy, Debug, PartialEq, Eq)]
pub enum Event {
    /// The account booked the slot of the certificate.
    SlotTaken(AccountId, CertificateId),
    /// The account renewed the slot of the certificate.
    SlotRenewed(AccountId, CertificateId),
}

/// Whoever receives the fees.
pub trait OnUnbalanced {
    /// The fees received so far, in the order of their arrival.
    spec fn collected(&self) -> Seq<Balance>;

    /// Receives a fee.
    fn on_unbalanced(&mut self, amount: Balance)
        ensures
            final(self).collected() == old(self).collected().push(amount),
    ;
}

/// A collector that keeps a list of the fees it received.
#[derive(Clone, Debug, PartialEq, Eq)]
pub struct FundsCollector {
    receipts: Vec<Balance>,
}

impl FundsCollector {
    /// A collector that has received nothing.
    pub fn new() -> (collector: Self)
        ensures
            collector.collected() == Seq::<Balance>::empty(),
    {
        FundsCollector { receipts: Vec::new() }
    }

    /// The fees received so far, in the order of their arrival.
    pub fn receipts(&self) -> (receipts: &Vec<Balance>)
        ensures
            receipts@ == self.collected(),
    {
        &self.receipts
    }
}

impl OnUnbalanced for FundsCollector {
    closed spec fn collected(&self) -> Seq<Balance> {
        self.receipts@
    }

    fn on_unbalanced(&mut self, amount: Balance) {
        self.receipts.push(amount);
    }
}

/// The table as a mathematical value: the members as the table was last told, and the slots
/// by their certificates.
pub struct ModuleView {
    pub members: Seq<AccountId>,
    pub slots: Map<CertificateId, RootCertificateView>,
}

/// The slot that a booking makes.
pub open spec fn booked_slot(
    owner: AccountId,
    certificate_id: CertificateId,
    now: BlockNumber,
    validity: BlockNumber,
) -> RootCertificateView {
    RootCertificateView {
        owner,
        key: certificate_id,
        created: now,
        renewed: now,
        revoked: false,
        validity,
        child_revocations: Seq::empty(),
    }
}

impl ModuleView {
    /// Whether the account is a member, as far as the table was told.
    pub open spec fn is_member(self, who: AccountId) -> bool {
        self.members.contains(who)
    }

    /// Whether a slot is valid at block `now`: its owner is a member, it was not revoked,
    /// and the validity that began with the last renewal has not run out.
    pub open spec fn is_slot_valid(self, slot: RootCertificateView, now: BlockNumber) -> bool {
        &&& self.is_member(slot.owner)
        &&& !slot.revoked
        &&& slot.renewed + slot.validity > now
    }

    /// Whether a root certificate is valid at block `now`: it has a slot, and the slot is
    /// valid.
    pub open spec fn is_root_certificate_valid(
        self,
        cert: CertificateId,
        now: BlockNumber,
    ) -> bool {
        self.slots.dom().contains(cert) && self.is_slot_valid(self.slots[cert], now)
    }

    /// Whether a child certificate is valid under a root at block `now`: it is not the root
    /// itself, the root is valid, and the root has not revoked it.
    pub open spec fn is_child_certificate_valid(
        self,
        root: CertificateId,
        child: CertificateId,
        now: BlockNumber,
    ) -> bool {
        &&& root != child
        &&& self.is_root_certificate_valid(root, now)
        &&& !self.slots[root].child_revocations.contains(child)
    }

    /// Why `book_slot` refuses, if it does.
    pub open spec fn book_refusal(
        self,
        config: Config,
        ledger: LedgerView,
        origin: AccountId,
        certificate_id: CertificateId,
    ) -> Option<Error> {
        if self.slots.dom().contains(certificate_id) {
            Some(Error::SlotTaken)
        } else if !self.is_member(origin) {
            Some(Error::NotAMember)
        } else if ledger.free(origin) < config.slot_booking_cost {
            Some(Error::NotEnoughFunds)
        } else {
            None
        }
    }

    /// The table after `origin` has booked the slot of `certificate_id` at block `now`.
    pub open spec fn booked(
        self,
        config: Config,
        origin: AccountId,
        certificate_id: CertificateId,
        now: BlockNumber,
    ) -> Self {
        ModuleView {
            members: self.members,
            slots: self.slots.insert(
                certificate_id,
                booked_slot(origin, certificate_id, now, config.slot_validity),
            ),
        }
    }

    /// Why `renew_slot` refuses, if it does.
    pub open spec fn renew_refusal(
        self,
        config: Config,
        ledger: LedgerView,
        origin: AccountId,
        certificate: CertificateId,
        now: BlockNumber,
    ) -> Option<Error> {
        if !self.is_root_certificate_valid(certificate, now) {
            Some(Error::NoLongerValid)
        } else if self.slots[certificate].owner != origin {
            Some(Error::NotTheOwner)
        } else if ledger.free(origin) < config.slot_renewing_cost {
            Some(Error::NotEnoughFunds)
        } else {
            None
        }
    }

    /// The table after the slot of `certificate` was renewed at block `now`.
    pub open spec fn renewed(self, certificate: CertificateId, now: BlockNumber) -> Self {
        ModuleView {
            members: self.members,
            slots: self.slots.insert(
                certificate,
                RootCertificateView { renewed: now, ..self.slots[certificate] },
            ),
        }
    }
}

/// No certificate has two slots.
pub open spec fn distinct(slots: Seq<RootCertificateView>) -> bool {
    forall|i: int, j: int| 0 <= i < j < slots.len() ==> slots[i].key != slots[j].key
}

/// Whether some slot is for the certificate.
pub open spec fn taken(slots: Seq<RootCertificateView>, cert: CertificateId) -> bool {
    exists|i: int| 0 <= i < slots.len() && #[trigger] slots[i].key == cert
}

/// The place of a slot for the certificate.
pub open spec fn place(slots: Seq<RootCertificateView>, cert: CertificateId) -> int {
    choose|i: int| 0 <= i < slots.len() && #[trigger] slots[i].key == cert
}

/// The slots as a map from certificate to slot.
pub open spec fn as_slots(slots: Seq<RootCertificateView>) -> Map<
    CertificateId,
    RootCertificateView,
> {
    Map::new(
        |cert: CertificateId| taken(slots, cert),
        |cert: CertificateId| slots[place(slots, cert)],
    )
}

/// The slots as mathematical values.
pub open spec fn slot_views(slots: Seq<RootCertificate>) -> Seq<RootCertificateView> {
    slots.map_values(|slot: RootCertificate| slot@)
}

proof fn lemma_place(slots: Seq<RootCertificateView>, i: int)
    requires
        distinct(slots),
        0 <= i < slots.len(),
    ensures
        taken(slots, slots[i].key),
        place(slots, slots[i].key) == i,
        as_slots(slots).dom().contains(slots[i].key),
        as_slots(slots)[slots[i].key] == slots[i],
{
    let cert = slots[i].key;
    assert(slots[i].key == cert);
    let p = place(slots, cert);
    assert(0 <= p < slots.len() && slots[p].key == cert);
    if p < i {
        assert(slots[p].key != slots[i].key);
    } else if i < p {
        assert(slots[i].key != slots[p].key);
    }
}

proof fn lemma_update(slots: Seq<RootCertificateView>, i: int, slot: RootCertificateView)
    requires
        distinct(slots),
        0 <= i < slots.len(),
        slot.key == slots[i].key,
    ensures
        distinct(slots.update(i, slot)),
        as_slots(slots.update(i, slot)) == as_slots(slots).insert(slot.key, slot),
{
    let after = slots.update(i, slot);
    assert(distinct(after)) by {
        assert forall|a: int, b: int| 0 <= a < b < after.len() implies after[a].key
            != after[b].key by {
            assert(slots[a].key != slots[b].key);
        }
    }
    assert forall|cert: CertificateId| taken(after, cert) == taken(slots, cert) by {
        if taken(after, cert) {
            let k = place(after, cert);
            assert(slots[k].key == cert);
        }
        if taken(slots, cert) {
            let k = place(slots, cert);
            assert(after[k].key == cert);
        }
    }
    assert forall|cert: CertificateId| taken(after, cert) implies #[trigger] as_slots(after)[cert]
        == as_slots(slots).insert(slot.key, slot)[cert] by {
        let k = place(after, cert);
        assert(0 <= k < after.len() && after[k].key == cert);
        lemma_place(after, k);
        if cert != slot.key {
            lemma_place(slots, k);
        } else {
            lemma_place(after, i);
        }
    }
    lemma_place(slots, i);
    assert(as_slots(after) =~= as_slots(slots).insert(slot.key, slot));
}

proof fn lemma_push(slots: Seq<RootCertificateView>, slot: RootCertificateView)
    requires
        distinct(slots),
        !taken(slots, slot.key),
    ensures
        distinct(slots.push(slot)),
        as_slots(slots.push(slot)) == as_slots(slots).insert(slot.key, slot),
{
    let after = slots.push(slot);
    let last = slots.len() as int;
    assert(distinct(after)) by {
        assert forall|a: int, b: int| 0 <= a < b < after.len() implies after[a].key
            != after[b].key by {
            if b == last {
                assert(slots[a].key != slot.key);
            } else {
                assert(slots[a].key != slots[b].key);
            }
        }
    }
    assert forall|cert: CertificateId| taken(after, cert) == (cert == slot.key || taken(
        slots,
        cert,
    )) by {
        if taken(after, cert) {
            let k = place(after, cert);
            if k < last {
                assert(slots[k].key == cert);
            }
        }
        if taken(slots, cert) {
            let k = place(slots, cert);
            assert(after[k].key == cert);
        }
        if cert == slot.key {
            assert(after[last].key == cert);
        }
    }
    assert forall|cert: CertificateId| taken(after, cert) implies #[trigger] as_slots(after)[cert]
        == as_slots(slots).insert(slot.key, slot)[cert] by {
        let k = place(after, cert);
        assert(0 <= k < after.len() && after[k].key == cert);
        lemma_place(after, k);
        if cert != slot.key {
            lemma_place(slots, k);
        } else {
            lemma_place(after, last);
        }
    }
    assert(as_slots(after) =~= as_slots(slots).insert(slot.key, slot));
}

/// A table of certificate slots.
#[derive(Clone)]
pub struct Module {
    config: Config,
    members: Vec<AccountId>,
    slots: Vec<RootCertificate>,
    notices: Ghost<Seq<Notice>>,
}

impl View for Module {
    type V = ModuleView;

    closed spec fn view(&self) -> ModuleView {
        ModuleView { members: self.members@, slots: as_slots(slot_views(self.slots@)) }
    }
}

impl Module {
    /// The rules of this table.
    pub closed spec fn settings(&self) -> Config {
        self.config
    }

    /// The table's invariant, which every operation keeps.
    pub closed spec fn wf(&self) -> bool {
        distinct(slot_views(self.slots@))
    }

    /// A table without slots that knows no member.
    pub fn new(config: Config) -> (module: Self)
        ensures
            module.wf(),
            module.settings() == config,
            module@ == (ModuleView { members: Seq::empty(), slots: Map::empty() }),
            module.notices() == Seq::<Notice>::empty(),
    {
        let module = Module {
            config,
            members: Vec::new(),
            slots: Vec::new(),
            notices: Ghost(Seq::empty()),
        };
        assert(as_slots(slot_views(module.slots@)) =~= Map::empty());
        module
    }

    /// The rules of this table.
    pub fn config(&self) -> (config: Config)
        ensures
            config == self.settings(),
    {
        self.config
    }

    /// The members as the table was last told.
    pub fn members(&self) -> (members: &Vec<AccountId>)
        ensures
            members@ == self@.members,
    {
        &self.members
    }

    fn position(&self, cert: CertificateId) -> (found: Option<usize>)
        requires
            self.wf(),
        ensures
            found is Some <==> self@.slots.dom().contains(cert),
            found matches Some(i) ==> i < self.slots.len() && self.slots[i as int].key == cert
                && self@.slots[cert] == self.slots[i as int]@,
    {
        let mut i: usize = 0;
        while i < self.slots.len()
            invariant
                i <= self.slots.len(),
                self.wf(),
                forall|j: int| 0 <= j < i ==> self.slots[j].key != cert,
            decreases self.slots.len() - i,
        {
            if self.slots[i].key == cert {
                proof {
                    lemma_place(slot_views(self.slots@), i as int);
                }
                return Some(i);
            }
            i += 1;
        }
        proof {
            let slots = slot_views(self.slots@);
            if taken(slots, cert) {
                let k = place(slots, cert);
                assert(self.slots[k].key != cert);
            }
        }
        None
    }

    /// The slot of a certificate, if it has one.
    pub fn slots(&self, cert: CertificateId) -> (found: Option<&RootCertificate>)
        requires
            self.wf(),
        ensures
            found is Some <==> self@.slots.dom().contains(cert),
            found matches Some(slot) ==> slot@ == self@.slots[cert],
    {
        match self.position(cert) {
            Some(i) => Some(&self.slots[i]),
            None => None,
        }
    }

    /// Puts a slot into the table, in the place of the slot that its certificate had if it
    /// had one.
    pub fn put_slot(&mut self, slot: RootCertificate)
        requires
            old(self).wf(),
        ensures
            final(self).wf(),
            final(self).settings() == old(self).settings(),
            final(self)@ == (ModuleView {
                members: old(self)@.members,
                slots: old(self)@.slots.insert(slot.key, slot@),
            }),
            final(self).notices() == old(self).notices(),
    {
        match self.position(slot.key) {
            Some(i) => {
                proof {
                    lemma_update(slot_views(self.slots@), i as int, slot@);
                }
                self.slots.set(i, slot);
                proof {
                    assert(slot_views(self.slots@) =~= slot_views(old(self).slots@).update(
                        i as int,
                        slot@,
                    ));
                }
            },
            None => {
                proof {
                    lemma_push(slot_views(self.slots@), slot@);
                }
                self.slots.push(slot);
                proof {
                    assert(slot_views(self.slots@) =~= slot_views(old(self).slots@).push(slot@));
                }
            },
        }
    }

    /// Whether the account is a member, as far as the table was told.
    pub fn is_member(&self, who: &AccountId) -> (member: bool)
        ensures
            member == self@.is_member(*who),
    {
        contains_account(&self.members, *who)
    }

    /// Whether a slot is valid at block `now`.
    pub fn is_slot_valid(&self, slot: &RootCertificate, now: BlockNumber) -> (valid: bool)
        ensures
            valid == self@.is_slot_valid(slot@, now),
    {
        let owner_is_member = self.is_member(&slot.owner);
        let revoked = slot.revoked;
        let expired = slot.renewed as u128 + slot.validity as u128 <= now as u128;
        owner_is_member && !revoked && !expired
    }

    /// Whether a root certificate is valid at block `now`.
    pub fn is_root_certificate_valid(&self, cert: &CertificateId, now: BlockNumber) -> (valid: bool)
        requires
            self.wf(),
        ensures
            valid == self@.is_root_certificate_valid(*cert, now),
    {
        match self.slots(*cert) {
            Some(slot) => self.is_slot_valid(slot, now),
            None => false,
        }
    }

    /// Whether a child certificate is valid under a root at block `now`.
    pub fn is_child_certificate_valid(
        &self,
        root: &CertificateId,
        child: &CertificateId,
        now: BlockNumber,
    ) -> (valid: bool)
        requires
            self.wf(),
        ensures
            valid == self@.is_child_certificate_valid(*root, *child, now),
    {
        if *root == *child {
            return false;
        }
        match self.slots(*root) {
            Some(slot) => {
                if !self.is_slot_valid(slot, now) {
                    return false;
                }
                !contains_account(&slot.child_revocations, *child)
            },
            None => false,
        }
    }

    /// Books the slot of `certificate_id` for `origin`, which has to be a member and pays
    /// the booking fee to the collector. A slot that is taken is refused to everyone for
    /// being taken; only a free slot is refused for want of membership or of funds.
    pub fn book_slot<L: Ledger, F: OnUnbalanced>(
        &mut self,
        ledger: &mut L,
        collector: &mut F,
        origin: AccountId,
        certificate_id: CertificateId,
        now: BlockNumber,
    ) -> (outcome: Result<Event, Error>)
        requires
            old(self).wf(),
            old(ledger).wf(),
        ensures
            final(self).wf(),
            final(ledger).wf(),
            final(self).settings() == old(self).settings(),
            final(self).notices() == old(self).notices(),
            (match outcome {
                Ok(event) => {
                    &&& old(self)@.book_refusal(
                        old(self).settings(),
                        old(ledger)@,
                        origin,
                        certificate_id,
                    ) is None
                    &&& event == Event::SlotTaken(origin, certificate_id)
                    &&& final(self)@ == old(self)@.booked(
                        old(self).settings(),
                        origin,
                        certificate_id,
                        now,
                    )
                    &&& final(ledger)@ == old(ledger)@.withdraw(
                        origin,
                        old(self).settings().slot_booking_cost as nat,
                    )
                    &&& final(collector).collected() == old(collector).collected().push(
                        old(self).settings().slot_booking_cost,
                    )
                },
                Err(error) => {
                    &&& old(self)@.book_refusal(
                        old(self).settings(),
                        old(ledger)@,
                        origin,
                        certificate_id,
                    ) == Some(error)
                    &&& final(self)@ == old(self)@
                    &&& final(ledger)@ == old(ledger)@
                    &&& *final(collector) == *old(collector)
                },
            }),
    {
        if self.position(certificate_id).is_some() {
            return Err(Error::SlotTaken);
        }
        if !self.is_member(&origin) {
            return Err(Error::NotAMember);
        }
        match ledger.withdraw(origin, self.config.slot_booking_cost) {
            Ok(imbalance) => collector.on_unbalanced(imbalance),
            Err(_) => {
                return Err(Error::NotEnoughFunds);
            },
        }
        self.put_slot(
            RootCertificate {
                owner: origin,
                key: certificate_id,
                created: now,
                renewed: now,
                revoked: false,
                validity: self.config.slot_validity,
                child_revocations: Vec::new(),
            },
        );
        Ok(Event::SlotTaken(origin, certificate_id))
    }

    /// Renews the slot of `certificate`, which has to be valid and to belong to `origin`;
    /// `origin` pays the renewing fee to the collector.
    pub fn renew_slot<L: Ledger, F: OnUnbalanced>(
        &mut self,
        ledger: &mut L,
        collector: &mut F,
        origin: AccountId,
        certificate: CertificateId,
        now: BlockNumber,
    ) -> (outcome: Result<Event, Error>)
        requires
            old(self).wf(),
            old(ledger).wf(),
        ensures
            final(self).wf(),
            final(ledger).wf(),
            final(self).settings() == old(self).settings(),
            final(self).notices() == old(self).notices(),
            (match outcome {
                Ok(event) => {
                    &&& old(self)@.renew_refusal(
                        old(self).settings(),
                        old(ledger)@,
                        origin,
                        certificate,
                        now,
                    ) is None
                    &&& event == Event::SlotRenewed(origin, certificate)
                    &&& final(self)@ == old(self)@.renewed(certificate, now)
                    &&& final(ledger)@ == old(ledger)@.withdraw(
                        origin,
                        old(self).settings().slot_renewing_cost as nat,
                    )
                    &&& final(collector).collected() == old(collector).collected().push(
                        old(self).settings().slot_renewing_cost,
                    )
                },
                Err(error) => {
                    &&& old(self)@.renew_refusal(
                        old(self).settings(),
                        old(ledger)@,
                        origin,
                        certificate,
                        now,
                    ) == Some(error)
                    &&& final(self)@ == old(self)@
                    &&& final(ledger)@ == old(ledger)@
                    &&& *final(collector) == *old(collector)
                },
            }),
    {
        let mut slot = match self.slots(certificate) {
            Some(found) => found.clone(),
            None => {
                return Err(Error::NoLongerValid);
            },
        };
        if !self.is_slot_valid(&slot, now) {
            return Err(Error::NoLongerValid);
        }
        if slot.owner != origin {
            return Err(Error::NotTheOwner);
        }
        match ledger.withdraw(origin, self.config.slot_renewing_cost) {
            Ok(imbalance) => collector.on_unbalanced(imbalance),
            Err(_) => {
                return Err(Error::NotEnoughFunds);
            },
        }
        slot.renewed = now;
        proof {
            assert(slot.key == certificate);
        }
        self.put_slot(slot);
        Ok(Event::SlotRenewed(origin, certificate))
    }
}

impl ChangeMembers for Module {
    closed spec fn members(&self) -> Seq<AccountId> {
        self.members@
    }

    closed spec fn notices(&self) -> Seq<Notice> {
        self.notices@
    }

    /// Takes `new` as the membership; no slot changes.
    fn change_members_sorted(
        &mut self,
        incoming: &[AccountId],
        outgoing: &[AccountId],
        new: &[AccountId],
    )
        ensures
            final(self)@ == (ModuleView { members: new@, slots: old(self)@.slots }),
            final(self).settings() == old(self).settings(),
            old(self).wf() ==> final(self).wf(),
    {
        self.members = copy_accounts(new);
        proof {
            self.notices@ = self.notices@.push(
                Notice { incoming: incoming@, outgoing: outgoing@, new: new@ },
            );
        }
    }
}

/// A certificate that is not valid at some block is not valid at any later block, while the
/// table stays as it is.
pub proof fn lemma_validity_runs_out(
    view: ModuleView,
    cert: CertificateId,
    now: BlockNumber,
    later: BlockNumber,
)
    requires
        now <= later,
        !view.is_root_certificate_valid(cert, now),
    ensures
        !view.is_root_certificate_valid(cert, later),
{
}

/// A certificate is not valid once the validity that began with its last renewal has run
/// out, nor while it is revoked, nor while its owner is no member.
pub proof fn lemma_validity_is_lost(view: ModuleView, cert: CertificateId, now: BlockNumber)
    requires
        view.slots.dom().contains(cert),
        view.slots[cert].revoked || !view.is_member(view.slots[cert].owner) || now
            >= view.slots[cert].renewed + view.slots[cert].validity,
    ensures
        !view.is_root_certificate_valid(cert, now),
        forall|child: CertificateId| !view.is_child_certificate_valid(cert, child, now),
{
}

/// Revoking a certificate, taking its owner out of the members or letting the blocks pass
/// never makes a certificate valid that was not.
pub proof fn lemma_validity_is_not_regained(
    before: ModuleView,
    after: ModuleView,
    cert: CertificateId,
    now: BlockNumber,
    later: BlockNumber,
)
    requires
        now <= later,
        before.slots.dom().contains(cert) ==> after.slots.dom().contains(cert) && after.slots[cert]
            == (RootCertificateView {
            revoked: before.slots[cert].revoked || after.slots[cert].revoked,
            ..before.slots[cert]
        }),
        !before.slots.dom().contains(cert) ==> !after.slots.dom().contains(cert),
        forall|who: AccountId| after.is_member(who) ==> before.is_member(who),
        !before.is_root_certificate_valid(cert, now),
    ensures
        !after.is_root_certificate_valid(cert, later),
{
}

/// Whoever tries to book a slot that is taken is refused because it is taken: member or not,
/// with whatever balance.
pub proof fn lemma_taken_slot_is_refused(
    view: ModuleView,
    config: Config,
    ledger: LedgerView,
    origin: AccountId,
    certificate_id: CertificateId,
)
    requires
        view.slots.dom().contains(certificate_id),
    ensures
        view.book_refusal(config, ledger, origin, certificate_id) == Some(Error::SlotTaken),
{
}

/// Once a slot is booked, whoever tries to book it again is refused because it is taken.
pub proof fn lemma_slot_is_booked_once(
    view: ModuleView,
    config: Config,
    ledger: LedgerView,
    first: AccountId,
    booked_at: BlockNumber,
    later: LedgerView,
    second: AccountId,
    certificate_id: CertificateId,
)
    requires
        view.book_refusal(config, ledger, first, certificate_id) is None,
    ensures
        view.booked(config, first, certificate_id, booked_at).book_refusal(
            config,
            later,
            second,
            certificate_id,
        ) == Some(Error::SlotTaken),
{
}

} // verus!
