//! A collection of applications, one per candidate at most, kept in ascending order of the
//! candidates' accounts so that it is walked in the same order everywhere.

use crate::application::{Application, ApplicationView};
use crate::types::AccountId;
use vstd::prelude::*;

verus! {

/// The records stand in strictly ascending order of their candidates.
pub open spec fn ordered(records: Seq<ApplicationView>) -> bool {
    forall|i: int, j: int|
        0 <= i < j < records.len() ==> records[i].candidate < records[j].candidate
}

/// Whether a record of `who` is among the records.
pub open spec fn listed(records: Seq<ApplicationView>, who: AccountId) -> bool {
    exists|i: int| 0 <= i < records.len() && #[trigger] records[i].candidate == who
}

/// The number of records whose candidate comes before `who`: in ordered records, the place
/// where the record of `who` stands or would stand.
pub open spec fn rank(records: Seq<ApplicationView>, who: AccountId) -> int
    decreases records.len(),
{
    if records.len() == 0 {
        0
    } else {
        rank(records.drop_last(), who) + if records.last().candidate < who {
            1int
        } else {
            0int
        }
    }
}

/// The record of `who`. Meant for ordered records that have one.
pub open spec fn record_of(records: Seq<ApplicationView>, who: AccountId) -> ApplicationView {
    records[rank(records, who)]
}

/// The records with `record` in the place of its candidate: instead of the candidate's
/// earlier record if there is one, as a further record if not.
pub open spec fn put(records: Seq<ApplicationView>, record: ApplicationView) -> Seq<
    ApplicationView,
> {
    let at = rank(records, record.candidate);
    if listed(records, record.candidate) {
        records.update(at, record)
    } else {
        records.insert(at, record)
    }
}

/// The records without the record of `who`.
pub open spec fn without(records: Seq<ApplicationView>, who: AccountId) -> Seq<ApplicationView> {
    if listed(records, who) {
        records.remove(rank(records, who))
    } else {
        records
    }
}

/// The candidates of the records, in the order of the records.
pub open spec fn candidates(records: Seq<ApplicationView>) -> Seq<AccountId> {
    records.map_values(|record: ApplicationView| record.candidate)
}

/// No candidate has a record in both collections.
pub open spec fn apart(first: Seq<ApplicationView>, second: Seq<ApplicationView>) -> bool {
    forall|who: AccountId| !(listed(first, who) && listed(second, who))
}

/// In ordered records the rank splits the records: before it stand the candidates that come
/// before `who`, from it on those that do not.
pub proof fn lemma_rank(records: Seq<ApplicationView>, who: AccountId)
    requires
        ordered(records),
    ensures
        0 <= rank(records, who) <= records.len(),
        forall|i: int| 0 <= i < rank(records, who) ==> records[i].candidate < who,
        forall|i: int| rank(records, who) <= i < records.len() ==> records[i].candidate >= who,
        listed(records, who) <==> rank(records, who) < records.len() && records[rank(
            records,
            who,
        )].candidate == who,
    decreases records.len(),
{
    if records.len() > 0 {
        let n = records.len() as int;
        let front = records.drop_last();
        assert(ordered(front)) by {
            assert forall|i: int, j: int| 0 <= i < j < front.len() implies front[i].candidate
                < front[j].candidate by {
                assert(records[i].candidate < records[j].candidate);
            }
        }
        lemma_rank(front, who);
        let before = rank(front, who);
        let at = rank(records, who);
        if records.last().candidate < who {
            if before < n - 1 {
                assert(front[before].candidate >= who);
                assert(records[before].candidate < records[n - 1].candidate);
            }
            assert(at == n);
            assert forall|i: int| 0 <= i < at implies records[i].candidate < who by {
                if i < n - 1 {
                    assert(records[i].candidate < records[n - 1].candidate);
                }
            }
        } else {
            assert(at == before);
            assert forall|i: int| 0 <= i < at implies records[i].candidate < who by {
                assert(front[i].candidate < who);
            }
            assert forall|i: int| at <= i < n implies records[i].candidate >= who by {
                if i < n - 1 {
                    assert(front[i].candidate >= who);
                }
            }
        }
        if listed(records, who) {
            let k = choose|k: int| 0 <= k < records.len() && #[trigger] records[k].candidate == who;
            if k < at {
                assert(records[k].candidate < who);
            } else if k > at {
                assert(records[at].candidate >= who);
                assert(records[at].candidate < records[k].candidate);
            }
        }
        if at < n && records[at].candidate == who {
            assert(listed(records, who));
        }
    }
}

/// The place that splits ordered records around `who` is the rank of `who`.
pub proof fn lemma_rank_is(records: Seq<ApplicationView>, who: AccountId, at: int)
    requires
        ordered(records),
        0 <= at <= records.len(),
        forall|i: int| 0 <= i < at ==> records[i].candidate < who,
        forall|i: int| at <= i < records.len() ==> records[i].candidate >= who,
    ensures
        rank(records, who) == at,
{
    lemma_rank(records, who);
    let r = rank(records, who);
    if r < at {
        assert(records[r].candidate < who);
    }
    if at < r {
        assert(records[at].candidate >= who);
    }
}

/// Putting a record keeps the order, makes the record the one of its candidate and leaves
/// the records of all other candidates as they were.
pub proof fn lemma_put(records: Seq<ApplicationView>, record: ApplicationView)
    requires
        ordered(records),
    ensures
        ordered(put(records, record)),
        listed(put(records, record), record.candidate),
        record_of(put(records, record), record.candidate) == record,
        forall|who: AccountId|
            who != record.candidate ==> (#[trigger] listed(put(records, record), who) <==> listed(
                records,
                who,
            )),
        forall|who: AccountId|
            who != record.candidate && listed(records, who) ==> #[trigger] record_of(
                put(records, record),
                who,
            ) == record_of(records, who),
{
    let at = rank(records, record.candidate);
    let after = put(records, record);
    lemma_rank(records, record.candidate);
    assert(ordered(after)) by {
        assert forall|i: int, j: int| 0 <= i < j < after.len() implies after[i].candidate
            < after[j].candidate by {
            if listed(records, record.candidate) {
                assert(records[i].candidate < records[j].candidate);
            } else {
                let a = if i < at {
                    i
                } else {
                    i - 1
                };
                let b = if j < at {
                    j
                } else {
                    j - 1
                };
                if i != at && j != at {
                    assert(records[a].candidate < records[b].candidate);
                } else if i == at {
                    assert(records[b].candidate >= record.candidate);
                } else {
                    assert(records[a].candidate < record.candidate);
                }
            }
        }
    }
    assert(after[at].candidate == record.candidate);
    lemma_rank(after, record.candidate);
    assert forall|who: AccountId| who != record.candidate implies (#[trigger] listed(after, who)
        <==> listed(records, who)) by {
        lemma_put_other(records, record, who);
    }
    assert forall|who: AccountId|
        who != record.candidate && listed(records, who) implies #[trigger] record_of(after, who)
            == record_of(records, who) by {
        lemma_put_other(records, record, who);
    }
}

proof fn lemma_put_other(records: Seq<ApplicationView>, record: ApplicationView, who: AccountId)
    requires
        ordered(records),
        ordered(put(records, record)),
        who != record.candidate,
    ensures
        listed(put(records, record), who) <==> listed(records, who),
        listed(records, who) ==> record_of(put(records, record), who) == record_of(records, who),
{
    let at = rank(records, record.candidate);
    let after = put(records, record);
    lemma_rank(records, record.candidate);
    lemma_rank(records, who);
    lemma_rank(after, who);
    if listed(records, who) {
        let k = rank(records, who);
        let k2 = if listed(records, record.candidate) || k < at {
            k
        } else {
            k + 1
        };
        assert(after[k2] == records[k]);
        assert(after[k2].candidate == who);
        assert(listed(after, who));
        let r = rank(after, who);
        if r < k2 {
            assert(after[r].candidate < after[k2].candidate);
        } else if k2 < r {
            assert(after[k2].candidate < after[r].candidate);
        }
    }
    if listed(after, who) {
        let k = rank(after, who);
        assert(k != at);
        let k2 = if listed(records, record.candidate) || k < at {
            k
        } else {
            k - 1
        };
        assert(records[k2] == after[k]);
        assert(records[k2].candidate == who);
    }
}

/// Taking a record out keeps the order, leaves the candidate without a record and leaves the
/// records of all other candidates as they were.
pub proof fn lemma_without(records: Seq<ApplicationView>, gone: AccountId)
    requires
        ordered(records),
    ensures
        ordered(without(records, gone)),
        !listed(without(records, gone), gone),
        forall|who: AccountId|
            who != gone ==> (#[trigger] listed(without(records, gone), who) <==> listed(
                records,
                who,
            )),
        forall|who: AccountId|
            who != gone && listed(records, who) ==> #[trigger] record_of(
                without(records, gone),
                who,
            ) == record_of(records, who),
{
    let at = rank(records, gone);
    let after = without(records, gone);
    lemma_rank(records, gone);
    if listed(records, gone) {
        assert(ordered(after)) by {
            assert forall|i: int, j: int| 0 <= i < j < after.len() implies after[i].candidate
                < after[j].candidate by {
                let a = if i < at {
                    i
                } else {
                    i + 1
                };
                let b = if j < at {
                    j
                } else {
                    j + 1
                };
                assert(records[a].candidate < records[b].candidate);
            }
        }
        if listed(after, gone) {
            let k = choose|k: int| 0 <= k < after.len() && #[trigger] after[k].candidate == gone;
            let k2 = if k < at {
                k
            } else {
                k + 1
            };
            assert(records[k2] == after[k]);
            if k2 < at {
                assert(records[k2].candidate < records[at].candidate);
            } else {
                assert(records[at].candidate < records[k2].candidate);
            }
        }
    }
    assert forall|who: AccountId| who != gone implies (#[trigger] listed(after, who) <==> listed(
        records,
        who,
    )) by {
        lemma_without_other(records, gone, who);
    }
    assert forall|who: AccountId| who != gone && listed(records, who) implies #[trigger] record_of(
        after,
        who,
    ) == record_of(records, who) by {
        lemma_without_other(records, gone, who);
    }
}

proof fn lemma_without_other(records: Seq<ApplicationView>, gone: AccountId, who: AccountId)
    requires
        ordered(records),
        ordered(without(records, gone)),
        who != gone,
    ensures
        listed(without(records, gone), who) <==> listed(records, who),
        listed(records, who) ==> record_of(without(records, gone), who) == record_of(records, who),
{
    let at = rank(records, gone);
    let after = without(records, gone);
    lemma_rank(records, gone);
    lemma_rank(records, who);
    lemma_rank(after, who);
    if listed(records, gone) {
        if listed(records, who) {
            let k = rank(records, who);
            let k2 = if k < at {
                k
            } else {
                k - 1
            };
            assert(after[k2] == records[k]);
            assert(after[k2].candidate == who);
            assert(listed(after, who));
            let r = rank(after, who);
            if r < k2 {
                assert(after[r].candidate < after[k2].candidate);
            } else if k2 < r {
                assert(after[k2].candidate < after[r].candidate);
            }
        }
        if listed(after, who) {
            let k = rank(after, who);
            let k2 = if k < at {
                k
            } else {
                k + 1
            };
            assert(records[k2] == after[k]);
            assert(records[k2].candidate == who);
        }
    }
}

/// The candidates of ordered records ascend strictly.
pub proof fn lemma_candidates_ascend(records: Seq<ApplicationView>)
    requires
        ordered(records),
    ensures
        candidates(records).len() == records.len(),
        forall|i: int, j: int|
            0 <= i < j < records.len() ==> candidates(records)[i] < candidates(records)[j],
{
    assert forall|i: int, j: int| 0 <= i < j < records.len() implies candidates(records)[i]
        < candidates(records)[j] by {
        assert(records[i].candidate < records[j].candidate);
    }
}

/// Each of the first `upto` records comes after the record before it.
pub open spec fn stepwise(records: Seq<ApplicationView>, upto: int) -> bool {
    forall|j: int|
        1 <= j < upto && j < records.len() ==> records[j - 1].candidate < (
        #[trigger] records[j]).candidate
}

/// Records of which each comes before its neighbour are in order.
pub proof fn lemma_neighbours_ordered(records: Seq<ApplicationView>)
    requires
        stepwise(records, records.len() as int),
    ensures
        ordered(records),
{
    assert forall|i: int, j: int| 0 <= i < j < records.len() implies records[i].candidate
        < records[j].candidate by {
        lemma_neighbours_reach(records, i, j);
    }
}

proof fn lemma_neighbours_reach(records: Seq<ApplicationView>, i: int, j: int)
    requires
        stepwise(records, records.len() as int),
        0 <= i < j < records.len(),
    ensures
        records[i].candidate < records[j].candidate,
    decreases j - i,
{
    assert(records[j - 1].candidate < records[j].candidate);
    if i + 1 < j {
        lemma_neighbours_reach(records, i, j - 1);
    }
}

/// A collection of applications in ascending order of their candidates.
#[derive(Clone, Debug, PartialEq, Eq)]
pub struct Registry {
    entries: Vec<Application>,
}

/// The applications as mathematical values.
pub open spec fn views(applications: Seq<Application>) -> Seq<ApplicationView> {
    applications.map_values(|application: Application| application@)
}

impl View for Registry {
    type V = Seq<ApplicationView>;

    closed spec fn view(&self) -> Seq<ApplicationView> {
        views(self.entries@)
    }
}

impl Registry {
    /// The records stand in order; every operation keeps it so.
    pub open spec fn wf(&self) -> bool {
        ordered(self@)
    }

    /// A collection without records.
    pub fn new() -> (registry: Self)
        ensures
            registry@ == Seq::<ApplicationView>::empty(),
            registry.wf(),
    {
        let registry = Registry { entries: Vec::new() };
        assert(registry@ =~= Seq::<ApplicationView>::empty());
        registry
    }

    /// The collection of `entries`, if they stand in strictly ascending order of their
    /// candidates.
    pub fn from_entries(entries: Vec<Application>) -> (made: Option<Self>)
        ensures
            made is Some <==> ordered(views(entries@)),
            made matches Some(registry) ==> registry@ == views(entries@) && registry.wf(),
    {
        let mut i: usize = 1;
        while i < entries.len()
            invariant
                1 <= i,
                stepwise(views(entries@), i as int),
            decreases entries.len() - i,
        {
            if entries[i - 1].candidate >= entries[i].candidate {
                proof {
                    let records = views(entries@);
                    assert(!(records[i - 1].candidate < records[i as int].candidate));
                }
                return None;
            }
            i += 1;
        }
        proof {
            assert(stepwise(views(entries@), entries.len() as int));
            lemma_neighbours_ordered(views(entries@));
        }
        Some(Registry { entries })
    }

    /// The collection of entries that are known to stand in order.
    pub(crate) fn from_ordered(entries: Vec<Application>) -> (registry: Self)
        requires
            ordered(views(entries@)),
        ensures
            registry@ == views(entries@),
            registry.wf(),
    {
        Registry { entries }
    }

    /// The number of records.
    pub fn len(&self) -> (count: usize)
        ensures
            count == self@.len(),
    {
        self.entries.len()
    }

    /// The record at a place.
    pub fn entry(&self, at: usize) -> (application: &Application)
        requires
            at < self@.len(),
        ensures
            application@ == self@[at as int],
    {
        &self.entries[at]
    }

    /// The place where the record of `who` stands or would stand.
    pub fn position(&self, who: AccountId) -> (at: usize)
        requires
            self.wf(),
        ensures
            at == rank(self@, who),
            at <= self@.len(),
            listed(self@, who) <==> at < self@.len() && self@[at as int].candidate == who,
    {
        let mut at: usize = 0;
        while at < self.entries.len() && self.entries[at].candidate < who
            invariant
                at <= self.entries.len(),
                self@.len() == self.entries.len(),
                forall|i: int| 0 <= i < at ==> self@[i].candidate < who,
                forall|i: int| 0 <= i < self.entries.len() ==> self@[i] == self.entries[i]@,
            decreases self.entries.len() - at,
        {
            at += 1;
        }
        proof {
            assert forall|i: int| at <= i < self@.len() implies self@[i].candidate >= who by {
                if i > at {
                    assert(self@[at as int].candidate < self@[i].candidate);
                }
            }
            lemma_rank_is(self@, who, at as int);
            lemma_rank(self@, who);
        }
        at
    }

    /// Whether `who` has a record.
    pub fn contains_key(&self, who: AccountId) -> (found: bool)
        requires
            self.wf(),
        ensures
            found == listed(self@, who),
    {
        let at = self.position(who);
        at < self.entries.len() && self.entries[at].candidate == who
    }

    /// The record of `who`, if there is one.
    pub fn get(&self, who: AccountId) -> (found: Option<&Application>)
        requires
            self.wf(),
        ensures
            found is Some <==> listed(self@, who),
            found matches Some(application) ==> application@ == record_of(self@, who)
                && application.candidate == who,
    {
        let at = self.position(who);
        if at < self.entries.len() && self.entries[at].candidate == who {
            Some(&self.entries[at])
        } else {
            None
        }
    }

    /// Puts `application` in the place of its candidate.
    pub fn insert(&mut self, application: Application)
        requires
            old(self).wf(),
        ensures
            final(self).wf(),
            final(self)@ == put(old(self)@, application@),
    {
        let at = self.position(application.candidate);
        proof {
            lemma_put(self@, application@);
        }
        if at < self.entries.len() && self.entries[at].candidate == application.candidate {
            self.entries.set(at, application);
            assert(self@ =~= put(old(self)@, application@));
        } else {
            self.entries.insert(at, application);
            assert(self@ =~= put(old(self)@, application@));
        }
    }

    /// Takes the record of `who` out, if there is one.
    pub fn remove(&mut self, who: AccountId) -> (taken: Option<Application>)
        requires
            old(self).wf(),
        ensures
            final(self).wf(),
            final(self)@ == without(old(self)@, who),
            taken is Some <==> listed(old(self)@, who),
            taken matches Some(application) ==> application@ == record_of(old(self)@, who)
                && application.candidate == who,
    {
        let at = self.position(who);
        proof {
            lemma_without(self@, who);
        }
        if at < self.entries.len() && self.entries[at].candidate == who {
            let application = self.entries.remove(at);
            assert(self@ =~= without(old(self)@, who));
            Some(application)
        } else {
            None
        }
    }

    /// The candidates, in ascending order.
    pub fn keys(&self) -> (accounts: Vec<AccountId>)
        ensures
            accounts@ == candidates(self@),
    {
        let mut accounts: Vec<AccountId> = Vec::new();
        let mut i: usize = 0;
        while i < self.entries.len()
            invariant
                i <= self.entries.len(),
                self@.len() == self.entries.len(),
                accounts@ == candidates(self@).take(i as int),
            decreases self.entries.len() - i,
        {
            accounts.push(self.entries[i].candidate);
            proof {
                assert(candidates(self@).take(i + 1) =~= candidates(self@).take(i as int).push(
                    self@[i as int].candidate,
                ));
            }
            i += 1;
        }
        proof {
            assert(candidates(self@).take(self.entries.len() as int) =~= candidates(self@));
        }
        accounts
    }
}

} // verus!
