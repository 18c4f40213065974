//! A ledger held in memory.
//!
//! `Balances` keeps one entry per account and the number of tokens in circulation, which is
//! always the sum of what the entries hold. An account is known from its first deposit on.

use crate::ledger::{AccountView, Ledger, LedgerError, LedgerView};
use crate::types::{AccountId, Balance};
use vstd::prelude::*;

verus! {

/// The balances of one account.
#[derive(Clone, Copy, Debug, PartialEq, Eq)]
pub struct Entry {
    pub id: AccountId,
    pub free: Balance,
    pub reserved: Balance,
}

impl Entry {
    /// The balances without the account's name.
    pub open spec fn balances(self) -> AccountView {
        AccountView { free: self.free as nat, reserved: self.reserved as nat }
    }
}

/// The sum of what the entries hold, free and reserved.
pub open spec fn holdings(entries: Seq<Entry>) -> int
    decreases entries.len(),
{
    if entries.len() == 0 {
        0
    } else {
        holdings(entries.drop_last()) + entries.last().free + entries.last().reserved
    }
}

/// No account has two entries.
pub open spec fn distinct(entries: Seq<Entry>) -> bool {
    forall|i: int, j: int| 0 <= i < j < entries.len() ==> entries[i].id != entries[j].id
}

/// Whether some entry belongs to `who`.
pub open spec fn known(entries: Seq<Entry>, who: AccountId) -> bool {
    exists|i: int| 0 <= i < entries.len() && #[trigger] entries[i].id == who
}

/// The place of an entry of `who`.
pub open spec fn place(entries: Seq<Entry>, who: AccountId) -> int {
    choose|i: int| 0 <= i < entries.len() && #[trigger] entries[i].id == who
}

/// The entries as a map from account to balances.
pub open spec fn as_accounts(entries: Seq<Entry>) -> Map<AccountId, AccountView> {
    Map::new(
        |who: AccountId| known(entries, who),
        |who: AccountId| entries[place(entries, who)].balances(),
    )
}

proof fn lemma_place(entries: Seq<Entry>, i: int)
    requires
        distinct(entries),
        0 <= i < entries.len(),
    ensures
        known(entries, entries[i].id),
        place(entries, entries[i].id) == i,
        as_accounts(entries).dom().contains(entries[i].id),
        as_accounts(entries)[entries[i].id] == entries[i].balances(),
{
    let who = entries[i].id;
    assert(entries[i].id == who);
    let p = place(entries, who);
    assert(0 <= p < entries.len() && entries[p].id == who);
    if p < i {
        assert(entries[p].id != entries[i].id);
    } else if i < p {
        assert(entries[i].id != entries[p].id);
    }
}

proof fn lemma_update(entries: Seq<Entry>, i: int, entry: Entry)
    requires
        distinct(entries),
        0 <= i < entries.len(),
        entry.id == entries[i].id,
    ensures
        distinct(entries.update(i, entry)),
        as_accounts(entries.update(i, entry)) == as_accounts(entries).insert(
            entry.id,
            entry.balances(),
        ),
        holdings(entries.update(i, entry)) == holdings(entries) - entries[i].free
            - entries[i].reserved + entry.free + entry.reserved,
{
    let after = entries.update(i, entry);
    assert(distinct(after)) by {
        assert forall|a: int, b: int| 0 <= a < b < after.len() implies after[a].id
            != after[b].id by {
            assert(entries[a].id != entries[b].id);
        }
    }
    assert forall|who: AccountId| known(after, who) == known(entries, who) by {
        if known(after, who) {
            let k = place(after, who);
            assert(entries[k].id == who);
        }
        if known(entries, who) {
            let k = place(entries, who);
            assert(after[k].id == who);
        }
    }
    assert forall|who: AccountId| known(after, who) implies #[trigger] as_accounts(after)[who]
        == as_accounts(entries).insert(entry.id, entry.balances())[who] by {
        let k = place(after, who);
        assert(0 <= k < after.len() && after[k].id == who);
        lemma_place(after, k);
        if who != entry.id {
            lemma_place(entries, k);
        } else {
            lemma_place(after, i);
        }
    }
    lemma_place(entries, i);
    assert(as_accounts(after) =~= as_accounts(entries).insert(entry.id, entry.balances()));
    lemma_holdings_update(entries, i, entry);
}

proof fn lemma_holdings_update(entries: Seq<Entry>, i: int, entry: Entry)
    requires
        0 <= i < entries.len(),
    ensures
        holdings(entries.update(i, entry)) == holdings(entries) - entries[i].free
            - entries[i].reserved + entry.free + entry.reserved,
    decreases entries.len(),
{
    let after = entries.update(i, entry);
    if i == entries.len() - 1 {
        assert(after.drop_last() =~= entries.drop_last());
    } else {
        assert(after.drop_last() =~= entries.drop_last().update(i, entry));
        lemma_holdings_update(entries.drop_last(), i, entry);
    }
}

proof fn lemma_push(entries: Seq<Entry>, entry: Entry)
    requires
        distinct(entries),
        !known(entries, entry.id),
    ensures
        distinct(entries.push(entry)),
        as_accounts(entries.push(entry)) == as_accounts(entries).insert(
            entry.id,
            entry.balances(),
        ),
        holdings(entries.push(entry)) == holdings(entries) + entry.free + entry.reserved,
{
    let after = entries.push(entry);
    let last = entries.len() as int;
    assert(after.drop_last() =~= entries);
    assert(distinct(after)) by {
        assert forall|a: int, b: int| 0 <= a < b < after.len() implies after[a].id
            != after[b].id by {
            if b == last {
                assert(entries[a].id != entry.id);
            } else {
                assert(entries[a].id != entries[b].id);
            }
        }
    }
    assert forall|who: AccountId| known(after, who) == (who == entry.id || known(entries, who)) by {
        if known(after, who) {
            let k = place(after, who);
            if k < last {
                assert(entries[k].id == who);
            }
        }
        if known(entries, who) {
            let k = place(entries, who);
            assert(after[k].id == who);
        }
        if who == entry.id {
            assert(after[last].id == who);
        }
    }
    assert forall|who: AccountId| known(after, who) implies #[trigger] as_accounts(after)[who]
        == as_accounts(entries).insert(entry.id, entry.balances())[who] by {
        let k = place(after, who);
        assert(0 <= k < after.len() && after[k].id == who);
        lemma_place(after, k);
        if who != entry.id {
            lemma_place(entries, k);
        } else {
            lemma_place(after, last);
        }
    }
    assert(as_accounts(after) =~= as_accounts(entries).insert(entry.id, entry.balances()));
}

proof fn lemma_holdings_cover(entries: Seq<Entry>, i: int)
    requires
        0 <= i < entries.len(),
    ensures
        entries[i].free + entries[i].reserved <= holdings(entries),
        0 <= holdings(entries),
    decreases entries.len(),
{
    lemma_holdings_nonnegative(entries.drop_last());
    if i < entries.len() - 1 {
        lemma_holdings_cover(entries.drop_last(), i);
    }
}

proof fn lemma_holdings_nonnegative(entries: Seq<Entry>)
    ensures
        0 <= holdings(entries),
    decreases entries.len(),
{
    if entries.len() > 0 {
        lemma_holdings_nonnegative(entries.drop_last());
    }
}

/// A ledger held in memory.
#[derive(Clone, Debug, PartialEq, Eq)]
pub struct Balances {
    entries: Vec<Entry>,
    issuance: Balance,
}

impl View for Balances {
    type V = LedgerView;

    closed spec fn view(&self) -> LedgerView {
        LedgerView { accounts: as_accounts(self.entries@), issuance: self.issuance as int }
    }
}

impl Balances {
    /// A ledger that knows no account and holds no token.
    pub fn new() -> (ledger: Self)
        ensures
            ledger.wf(),
            ledger@ == (LedgerView { accounts: Map::empty(), issuance: 0 }),
    {
        let ledger = Balances { entries: Vec::new(), issuance: 0 };
        assert(as_accounts(ledger.entries@) =~= Map::empty());
        ledger
    }

    /// Whether the ledger knows the account.
    pub fn account_exists(&self, who: AccountId) -> (exists: bool)
        requires
            self.wf(),
        ensures
            exists == self@.has_account(who),
    {
        self.position(who).is_some()
    }

    /// The number of tokens in circulation.
    pub fn total_issuance(&self) -> (issuance: Balance)
        ensures
            issuance == self@.issuance,
    {
        self.issuance
    }

    fn position(&self, who: AccountId) -> (found: Option<usize>)
        requires
            self.wf(),
        ensures
            found is Some <==> self@.has_account(who),
            found matches Some(i) ==> i < self.entries.len() && self.entries[i as int].id == who
                && self@.accounts[who] == self.entries[i as int].balances(),
            self@.free(who) <= u64::MAX,
            self@.reserved(who) <= u64::MAX,
    {
        let mut i: usize = 0;
        while i < self.entries.len()
            invariant
                i <= self.entries.len(),
                self.wf(),
                forall|j: int| 0 <= j < i ==> self.entries[j].id != who,
            decreases self.entries.len() - i,
        {
            if self.entries[i].id == who {
                proof {
                    lemma_place(self.entries@, i as int);
                }
                return Some(i);
            }
            i += 1;
        }
        assert(!known(self.entries@, who));
        None
    }
}

impl Ledger for Balances {
    closed spec fn wf(&self) -> bool {
        &&& distinct(self.entries@)
        &&& holdings(self.entries@) == self.issuance
    }

    proof fn lemma_issuance_fits(&self) {
    }

    fn free_balance(&self, who: AccountId) -> (balance: Balance) {
        match self.position(who) {
            Some(i) => self.entries[i].free,
            None => 0,
        }
    }

    fn reserved_balance(&self, who: AccountId) -> (balance: Balance) {
        match self.position(who) {
            Some(i) => self.entries[i].reserved,
            None => 0,
        }
    }

    fn can_reserve(&self, who: AccountId, amount: Balance) -> (possible: bool) {
        amount <= self.free_balance(who)
    }

    fn reserve(&mut self, who: AccountId, amount: Balance) -> (outcome: Result<(), LedgerError>) {
        match self.position(who) {
            Some(i) => {
                let entry = self.entries[i];
                if amount > entry.free {
                    return Err(LedgerError::InsufficientBalance);
                }
                proof {
                    lemma_holdings_cover(self.entries@, i as int);
                    lemma_update(
                        self.entries@,
                        i as int,
                        Entry {
                            id: who,
                            free: (entry.free - amount) as u64,
                            reserved: (entry.reserved + amount) as u64,
                        },
                    );
                }
                self.entries.set(
                    i,
                    Entry { id: who, free: entry.free - amount, reserved: entry.reserved + amount },
                );
                Ok(())
            },
            None => {
                if amount > 0 {
                    Err(LedgerError::InsufficientBalance)
                } else {
                    Ok(())
                }
            },
        }
    }

    fn unreserve(&mut self, who: AccountId, amount: Balance) -> (remaining: Balance) {
        match self.position(who) {
            Some(i) => {
                let entry = self.entries[i];
                let moved: Balance = if amount <= entry.reserved {
                    amount
                } else {
                    entry.reserved
                };
                proof {
                    lemma_holdings_cover(self.entries@, i as int);
                    lemma_update(
                        self.entries@,
                        i as int,
                        Entry {
                            id: who,
                            free: (entry.free + moved) as u64,
                            reserved: (entry.reserved - moved) as u64,
                        },
                    );
                }
                self.entries.set(
                    i,
                    Entry { id: who, free: entry.free + moved, reserved: entry.reserved - moved },
                );
                amount - moved
            },
            None => amount,
        }
    }

    fn can_slash(&self, who: AccountId, amount: Balance) -> (possible: bool) {
        amount <= self.free_balance(who)
    }

    fn slash(&mut self, who: AccountId, amount: Balance) -> (taken: Balance) {
        match self.position(who) {
            Some(i) => {
                let entry = self.entries[i];
                proof {
                    lemma_holdings_cover(self.entries@, i as int);
                }
                let held: Balance = entry.free + entry.reserved;
                let taken: Balance = if amount <= held {
                    amount
                } else {
                    held
                };
                let after = if taken <= entry.free {
                    Entry { id: who, free: entry.free - taken, reserved: entry.reserved }
                } else {
                    Entry { id: who, free: 0, reserved: entry.reserved - (taken - entry.free) }
                };
                proof {
                    lemma_update(self.entries@, i as int, after);
                }
                self.entries.set(i, after);
                self.issuance = self.issuance - taken;
                taken
            },
            None => 0,
        }
    }

    fn deposit_into_existing(&mut self, who: AccountId, amount: Balance) -> (outcome: Result<
        Balance,
        LedgerError,
    >) {
        match self.position(who) {
            Some(i) => {
                if amount > u64::MAX - self.issuance {
                    return Err(LedgerError::Overflow);
                }
                let entry = self.entries[i];
                proof {
                    lemma_holdings_cover(self.entries@, i as int);
                    lemma_update(
                        self.entries@,
                        i as int,
                        Entry {
                            id: who,
                            free: (entry.free + amount) as u64,
                            reserved: entry.reserved,
                        },
                    );
                }
                self.entries.set(
                    i,
                    Entry { id: who, free: entry.free + amount, reserved: entry.reserved },
                );
                self.issuance = self.issuance + amount;
                Ok(amount)
            },
            None => Err(LedgerError::DeadAccount),
        }
    }

    fn deposit_creating(&mut self, who: AccountId, amount: Balance) -> (credited: Balance) {
        if amount > u64::MAX - self.issuance {
            return 0;
        }
        match self.position(who) {
            Some(i) => {
                let entry = self.entries[i];
                proof {
                    lemma_holdings_cover(self.entries@, i as int);
                    lemma_update(
                        self.entries@,
                        i as int,
                        Entry {
                            id: who,
                            free: (entry.free + amount) as u64,
                            reserved: entry.reserved,
                        },
                    );
                }
                self.entries.set(
                    i,
                    Entry { id: who, free: entry.free + amount, reserved: entry.reserved },
                );
            },
            None => {
                proof {
                    lemma_push(self.entries@, Entry { id: who, free: amount, reserved: 0 });
                }
                self.entries.push(Entry { id: who, free: amount, reserved: 0 });
            },
        }
        self.issuance = self.issuance + amount;
        amount
    }

    fn withdraw(&mut self, who: AccountId, amount: Balance) -> (outcome: Result<
        Balance,
        LedgerError,
    >) {
        match self.position(who) {
            Some(i) => {
                let entry = self.entries[i];
                if amount > entry.free {
                    return Err(LedgerError::InsufficientBalance);
                }
                proof {
                    lemma_holdings_cover(self.entries@, i as int);
                    lemma_update(
                        self.entries@,
                        i as int,
                        Entry {
                            id: who,
                            free: (entry.free - amount) as u64,
                            reserved: entry.reserved,
                        },
                    );
                }
                self.entries.set(
                    i,
                    Entry { id: who, free: entry.free - amount, reserved: entry.reserved },
                );
                self.issuance = self.issuance - amount;
                Ok(amount)
            },
            None => {
                if amount > 0 {
                    Err(LedgerError::InsufficientBalance)
                } else {
                    Ok(0)
                }
            },
        }
    }
}

} // verus!
