//! The ledger that the engines move tokens on: its mathematical model and the interface
//! that a ledger offers.
//!
//! A ledger keeps, for every account it knows, a free and a reserved balance. Reserved tokens
//! still belong to the account but cannot be spent. Slashing and withdrawing take tokens out
//! of circulation, depositing puts tokens into circulation.

use crate::types::{AccountId, Balance};
use vstd::prelude::*;

verus! {

/// The balances of one account.
pub struct AccountView {
    pub free: nat,
    pub reserved: nat,
}

/// The state of a ledger: the accounts it knows and the number of tokens in circulation.
pub struct LedgerView {
    pub accounts: Map<AccountId, AccountView>,
    pub issuance: int,
}

impl LedgerView {
    /// Whether the ledger knows the account.
    pub open spec fn has_account(self, who: AccountId) -> bool {
        self.accounts.dom().contains(who)
    }

    /// The free balance of an account; zero for an account that the ledger does not know.
    pub open spec fn free(self, who: AccountId) -> nat {
        if self.has_account(who) {
            self.accounts[who].free
        } else {
            0
        }
    }

    /// The reserved balance of an account; zero for an account that the ledger does not know.
    pub open spec fn reserved(self, who: AccountId) -> nat {
        if self.has_account(who) {
            self.accounts[who].reserved
        } else {
            0
        }
    }

    /// The ledger in which a known account has the given balances and the circulation is
    /// `issuance`; an unknown account stays unknown.
    pub open spec fn set(self, who: AccountId, free: nat, reserved: nat, issuance: int) -> Self {
        if self.has_account(who) {
            LedgerView {
                accounts: self.accounts.insert(who, AccountView { free, reserved }),
                issuance,
            }
        } else {
            LedgerView { accounts: self.accounts, issuance }
        }
    }

    /// Moves `amount` from the free to the reserved balance. Meant for `amount <= free(who)`.
    pub open spec fn reserve(self, who: AccountId, amount: nat) -> Self {
        self.set(
            who,
            (self.free(who) - amount) as nat,
            self.reserved(who) + amount,
            self.issuance,
        )
    }

    /// The part of `amount` that an unreserve moves: no more than is reserved.
    pub open spec fn unreservable(self, who: AccountId, amount: nat) -> nat {
        if amount <= self.reserved(who) {
            amount
        } else {
            self.reserved(who)
        }
    }

    /// Moves up to `amount` from the reserved back to the free balance.
    pub open spec fn unreserve(self, who: AccountId, amount: nat) -> Self {
        let moved = self.unreservable(who, amount);
        self.set(
            who,
            self.free(who) + moved,
            (self.reserved(who) - moved) as nat,
            self.issuance,
        )
    }

    /// The part of `amount` that a slash takes: no more than the account holds.
    pub open spec fn slashable(self, who: AccountId, amount: nat) -> nat {
        if amount <= self.free(who) + self.reserved(who) {
            amount
        } else {
            self.free(who) + self.reserved(who)
        }
    }

    /// Takes up to `amount` out of circulation, from the free balance first and from the
    /// reserved balance for what the free balance cannot cover.
    pub open spec fn slash(self, who: AccountId, amount: nat) -> Self {
        let taken = self.slashable(who, amount);
        if taken <= self.free(who) {
            self.set(
                who,
                (self.free(who) - taken) as nat,
                self.reserved(who),
                self.issuance - taken,
            )
        } else {
            self.set(
                who,
                0,
                (self.reserved(who) - (taken - self.free(who))) as nat,
                self.issuance - taken,
            )
        }
    }

    /// Puts `amount` new tokens on the free balance of a known account.
    pub open spec fn deposit(self, who: AccountId, amount: nat) -> Self {
        self.set(who, self.free(who) + amount, self.reserved(who), self.issuance + amount)
    }

    /// Puts `amount` new tokens on the free balance of an account, which the ledger knows
    /// from then on.
    pub open spec fn create(self, who: AccountId, amount: nat) -> Self {
        LedgerView {
            accounts: self.accounts.insert(
                who,
                AccountView { free: self.free(who) + amount, reserved: self.reserved(who) },
            ),
            issuance: self.issuance + amount,
        }
    }

    /// Whether `amount` new tokens still fit the circulation.
    pub open spec fn fits(self, amount: nat) -> bool {
        self.issuance + amount <= u64::MAX
    }

    /// Puts `amount` new tokens on the free balance of an account and opens the account if
    /// need be, unless the tokens no longer fit the circulation.
    pub open spec fn endow(self, who: AccountId, amount: nat) -> Self {
        if self.fits(amount) {
            self.create(who, amount)
        } else {
            self
        }
    }

    /// Takes `amount` from the free balance out of circulation. Meant for
    /// `amount <= free(who)`.
    pub open spec fn withdraw(self, who: AccountId, amount: nat) -> Self {
        self.set(
            who,
            (self.free(who) - amount) as nat,
            self.reserved(who),
            self.issuance - amount,
        )
    }
}

/// Why a ledger refused an operation.
#[derive(Clone, Copy, Debug, PartialEq, Eq)]
pub enum LedgerError {
    /// The free balance does not cover the amount.
    InsufficientBalance,
    /// The ledger does not know the account.
    DeadAccount,
    /// The circulation would no longer fit a `Balance`.
    Overflow,
}

/// What the engines ask of a ledger.
///
/// Every operation is all or nothing: where it fails, the ledger is unchanged.
pub trait Ledger: View<V = LedgerView> + Sized {
    /// The ledger's own invariant, which every operation keeps.
    spec fn wf(&self) -> bool;

    /// The circulation of a well-formed ledger fits a `Balance`.
    proof fn lemma_issuance_fits(&self)
        requires
            self.wf(),
        ensures
            0 <= self@.issuance <= u64::MAX,
    ;

    /// The free balance of `who`.
    fn free_balance(&self, who: AccountId) -> (balance: Balance)
        requires
            self.wf(),
        ensures
            balance == self@.free(who),
    ;

    /// The reserved balance of `who`.
    fn reserved_balance(&self, who: AccountId) -> (balance: Balance)
        requires
            self.wf(),
        ensures
            balance == self@.reserved(who),
    ;

    /// Whether `amount` could be reserved from `who`.
    fn can_reserve(&self, who: AccountId, amount: Balance) -> (possible: bool)
        requires
            self.wf(),
        ensures
            possible == (amount <= self@.free(who)),
    ;

    /// Reserves `amount` from the free balance of `who`, if the free balance covers it.
    fn reserve(&mut self, who: AccountId, amount: Balance) -> (outcome: Result<(), LedgerError>)
        requires
            old(self).wf(),
        ensures
            final(self).wf(),
            outcome is Ok <==> amount <= old(self)@.free(who),
            outcome is Ok ==> final(self)@ == old(self)@.reserve(who, amount as nat),
            outcome is Err ==> final(self)@ == old(self)@,
    ;

    /// Releases up to `amount` of what `who` has reserved, and returns what could not be
    /// released.
    fn unreserve(&mut self, who: AccountId, amount: Balance) -> (remaining: Balance)
        requires
            old(self).wf(),
        ensures
            final(self).wf(),
            final(self)@ == old(self)@.unreserve(who, amount as nat),
            remaining == amount - old(self)@.unreservable(who, amount as nat),
    ;

    /// Whether `amount` could be slashed from the free balance of `who` alone.
    fn can_slash(&self, who: AccountId, amount: Balance) -> (possible: bool)
        requires
            self.wf(),
        ensures
            possible == (amount <= self@.free(who)),
    ;

    /// Slashes up to `amount` from `who` and returns what was taken out of circulation.
    fn slash(&mut self, who: AccountId, amount: Balance) -> (taken: Balance)
        requires
            old(self).wf(),
        ensures
            final(self).wf(),
            final(self)@ == old(self)@.slash(who, amount as nat),
            taken == old(self)@.slashable(who, amount as nat),
    ;

    /// Credits `amount` new tokens to `who`, if the ledger knows the account and the
    /// circulation still fits.
    fn deposit_into_existing(&mut self, who: AccountId, amount: Balance) -> (outcome: Result<
        Balance,
        LedgerError,
    >)
        requires
            old(self).wf(),
        ensures
            final(self).wf(),
            outcome is Ok <==> old(self)@.has_account(who) && old(self)@.fits(amount as nat),
            outcome is Ok ==> outcome == Ok::<Balance, LedgerError>(amount) && final(self)@ == old(
                self,
            )@.deposit(who, amount as nat),
            outcome is Err ==> final(self)@ == old(self)@,
            outcome is Err && old(self)@.has_account(who) ==> outcome == Err::<
                Balance,
                LedgerError,
            >(LedgerError::Overflow),
            !old(self)@.has_account(who) ==> outcome == Err::<Balance, LedgerError>(
                LedgerError::DeadAccount,
            ),
    ;

    /// Credits `amount` new tokens to `who`, opening the account if need be, and returns what
    /// was credited: nothing where the circulation would no longer fit.
    fn deposit_creating(&mut self, who: AccountId, amount: Balance) -> (credited: Balance)
        requires
            old(self).wf(),
        ensures
            final(self).wf(),
            final(self)@ == old(self)@.endow(who, amount as nat),
            credited == if old(self)@.fits(amount as nat) {
                amount
            } else {
                0
            },
    ;

    /// Takes `amount` from the free balance of `who` out of circulation, if the free balance
    /// covers it, and returns what was taken.
    fn withdraw(&mut self, who: AccountId, amount: Balance) -> (outcome: Result<
        Balance,
        LedgerError,
    >)
        requires
            old(self).wf(),
        ensures
            final(self).wf(),
            outcome is Ok <==> amount <= old(self)@.free(who),
            outcome is Ok ==> outcome == Ok::<Balance, LedgerError>(amount) && final(self)@ == old(
                self,
            )@.withdraw(who, amount as nat),
            outcome is Err ==> outcome == Err::<Balance, LedgerError>(
                LedgerError::InsufficientBalance,
            ) && final(self)@ == old(self)@,
    ;
}

} // verus!
