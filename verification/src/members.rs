//! How a change of the membership is told to those who depend on it.

use crate::types::AccountId;
use vstd::prelude::*;

verus! {

/// The accounts never descend.
pub open spec fn ascending(accounts: Seq<AccountId>) -> bool {
    forall|i: int, j: int| 0 <= i < j < accounts.len() ==> accounts[i] <= accounts[j]
}

/// The accounts ascend, and none occurs twice.
pub open spec fn strictly_ascending(accounts: Seq<AccountId>) -> bool {
    forall|i: int, j: int| 0 <= i < j < accounts.len() ==> accounts[i] < accounts[j]
}

/// What a subscriber is told at one time.
pub struct Notice {
    /// The accounts that were admitted or confirmed.
    pub incoming: Seq<AccountId>,
    /// The accounts that were removed.
    pub outgoing: Seq<AccountId>,
    /// The whole membership from then on.
    pub new: Seq<AccountId>,
}

/// A subscriber to the membership of the registry.
pub trait ChangeMembers {
    /// The membership as the subscriber was last told.
    spec fn members(&self) -> Seq<AccountId>;

    /// All that the subscriber was ever told, in the order of the telling.
    spec fn notices(&self) -> Seq<Notice>;

    /// Tells the subscriber that the accounts in `incoming` were admitted, that those in
    /// `outgoing` were removed, and that `new` is the whole membership from now on. The
    /// registry tells its lists in ascending order; a subscriber takes them as they come.
    fn change_members_sorted(
        &mut self,
        incoming: &[AccountId],
        outgoing: &[AccountId],
        new: &[AccountId],
    )
        ensures
            final(self).members() == new@,
            final(self).notices() == old(self).notices().push(
                (Notice { incoming: incoming@, outgoing: outgoing@, new: new@ }),
            ),
    ;
}

/// Whether `who` is among the accounts.
pub fn contains_account(accounts: &Vec<AccountId>, who: AccountId) -> (found: bool)
    ensures
        found == accounts@.contains(who),
{
    let mut i: usize = 0;
    while i < accounts.len()
        invariant
            i <= accounts.len(),
            forall|j: int| 0 <= j < i ==> accounts@[j] != who,
        decreases accounts.len() - i,
    {
        if accounts[i] == who {
            proof {
                assert(accounts@[i as int] == who);
            }
            return true;
        }
        i += 1;
    }
    false
}

/// Copies a slice of accounts.
pub fn copy_accounts(accounts: &[AccountId]) -> (copy: Vec<AccountId>)
    ensures
        copy@ == accounts@,
{
    let mut copy: Vec<AccountId> = Vec::new();
    let mut i: usize = 0;
    while i < accounts.len()
        invariant
            i <= accounts.len(),
            copy@ == accounts@.take(i as int),
        decreases accounts.len() - i,
    {
        copy.push(accounts[i]);
        proof {
            assert(accounts@.take(i + 1) =~= accounts@.take(i as int).push(accounts@[i as int]));
        }
        i += 1;
    }
    proof {
        assert(accounts@.take(accounts.len() as int) =~= accounts@);
    }
    copy
}

/// The accounts in ascending order: the same accounts, each as often as before.
pub fn sort_accounts(accounts: &[AccountId]) -> (sorted: Vec<AccountId>)
    ensures
        ascending(sorted@),
        sorted@.to_multiset() == accounts@.to_multiset(),
        sorted@.len() == accounts@.len(),
{
    let mut sorted: Vec<AccountId> = Vec::new();
    let mut i: usize = 0;
    proof {
        assert(sorted@ =~= accounts@.take(0));
    }
    while i < accounts.len()
        invariant
            i <= accounts.len(),
            ascending(sorted@),
            sorted@.len() == i,
            sorted@.to_multiset() == accounts@.take(i as int).to_multiset(),
        decreases accounts.len() - i,
    {
        let account = accounts[i];
        let mut at: usize = 0;
        while at < sorted.len() && sorted[at] <= account
            invariant
                at <= sorted.len(),
                forall|j: int| 0 <= j < at ==> sorted@[j] <= account,
            decreases sorted.len() - at,
        {
            at += 1;
        }
        let ghost before = sorted@;
        sorted.insert(at, account);
        proof {
            assert(accounts@.take(i + 1) =~= accounts@.take(i as int).push(account));
            assert(sorted@ == before.insert(at as int, account));
            vstd::seq_lib::to_multiset_insert(before, at as int, account);
            vstd::seq_lib::to_multiset_build(accounts@.take(i as int), account);
            assert(before.insert(at as int, account).to_multiset() == before.to_multiset().insert(
                account,
            ));
            assert(accounts@.take(i as int).push(account).to_multiset() == accounts@.take(
                i as int,
            ).to_multiset().insert(account));
            assert forall|a: int, b: int| 0 <= a < b < sorted@.len() implies sorted@[a]
                <= sorted@[b] by {
                let a0 = if a < at {
                    a
                } else {
                    a - 1
                };
                let b0 = if b < at {
                    b
                } else {
                    b - 1
                };
                if a != at && b != at {
                    assert(before[a0] <= before[b0]);
                } else if a == at {
                    assert(before[at as int] > account);
                    assert(before[at as int] <= before[b0]);
                }
            }
        }
        i += 1;
    }
    proof {
        assert(accounts@.take(accounts.len() as int) =~= accounts@);
    }
    sorted
}

/// Accounts in ascending order are the same lists exactly if they hold the same accounts,
/// each as often.
pub proof fn lemma_ascending_unique(first: Seq<AccountId>, second: Seq<AccountId>)
    requires
        ascending(first),
        ascending(second),
    ensures
        first == second <==> first.to_multiset() == second.to_multiset(),
{
    if first.to_multiset() == second.to_multiset() {
        let leq = |a: AccountId, b: AccountId| a <= b;
        assert(vstd::relations::sorted_by(first, leq));
        assert(vstd::relations::sorted_by(second, leq));
        assert(vstd::relations::total_ordering(leq));
        vstd::seq_lib::lemma_sorted_unique(first, second, leq);
    }
}

/// One list of accounts after the other.
pub fn join_accounts(first: &[AccountId], second: &[AccountId]) -> (joined: Vec<AccountId>)
    ensures
        joined@ == first@ + second@,
{
    let mut joined = copy_accounts(first);
    let mut i: usize = 0;
    while i < second.len()
        invariant
            i <= second.len(),
            joined@ == first@ + second@.take(i as int),
        decreases second.len() - i,
    {
        joined.push(second[i]);
        proof {
            assert(second@.take(i + 1) =~= second@.take(i as int).push(second@[i as int]));
            assert(first@ + second@.take(i + 1) =~= (first@ + second@.take(i as int)).push(
                second@[i as int],
            ));
        }
        i += 1;
    }
    proof {
        assert(second@.take(second.len() as int) =~= second@);
    }
    joined
}

/// Whether two lists hold the same accounts in the same order.
pub fn same_accounts(first: &Vec<AccountId>, second: &Vec<AccountId>) -> (same: bool)
    ensures
        same == (first@ == second@),
{
    if first.len() != second.len() {
        return false;
    }
    let mut i: usize = 0;
    while i < first.len()
        invariant
            i <= first.len(),
            first.len() == second.len(),
            first@.take(i as int) == second@.take(i as int),
        decreases first.len() - i,
    {
        if first[i] != second[i] {
            return false;
        }
        proof {
            assert(first@.take(i + 1) =~= first@.take(i as int).push(first@[i as int]));
            assert(second@.take(i + 1) =~= second@.take(i as int).push(second@[i as int]));
        }
        i += 1;
    }
    proof {
        assert(first@.take(first.len() as int) =~= first@);
        assert(second@.take(second.len() as int) =~= second@);
    }
    true
}

} // verus!
