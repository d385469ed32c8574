//! Ledger Capability: the abstract contract that any storage backend for
//! accounts, balances and intents must satisfy. It decouples the absence
//! engine from the backing store.
use crate::model::Absence;
use crate::model::AbsenceView;
use crate::model::Intent;
use crate::model::IntentId;
use crate::model::IntentView;
use vstd::prelude::*;

verus! {

/// Registration failures surfaced by a ledger backend.
#[derive(Clone, Copy, PartialEq, Eq, Structural, Debug)]
pub enum RegistryError {
    /// An intent with the same content-derived identifier is already
    /// active or already crystallized; no state mutation occurred.
    DuplicateIntent,
}

/// Mathematical contents of a ledger: the active set in registration
/// order, the balances of seeded accounts, and the crystallized absences
/// in the order they were recorded.
#[verifier::ext_equal]
pub struct LedgerView {
    pub active: Seq<IntentView>,
    pub balances: Map<Seq<char>, u64>,
    pub absences: Seq<AbsenceView>,
}

/// An account's balance: 0 for an account that was never seeded.
pub open spec fn balance_of(balances: Map<Seq<char>, u64>, account: Seq<char>) -> u64 {
    if balances.contains_key(account) {
        balances[account]
    } else {
        0
    }
}

/// Subtraction that saturates at zero: the slashing policy. Deducting more
/// than the balance empties the account instead of underflowing.
pub open spec fn sat_sub(a: u64, b: u64) -> u64 {
    if a >= b {
        (a - b) as u64
    } else {
        0
    }
}

/// The views of a vector of intents.
pub open spec fn intents_view(s: Seq<Intent>) -> Seq<IntentView> {
    s.map_values(|i: Intent| i@)
}

/// The views of a vector of absences.
pub open spec fn absences_view(s: Seq<Absence>) -> Seq<AbsenceView> {
    s.map_values(|a: Absence| a@)
}

/// Whether some active intent carries the given identifier.
pub open spec fn has_active_id(active: Seq<IntentView>, id: Seq<char>) -> bool {
    exists|i: int| 0 <= i < active.len() && active[i].id == id
}

/// Whether some recorded absence carries the given identifier.
pub open spec fn has_absence_id(absences: Seq<AbsenceView>, id: Seq<char>) -> bool {
    exists|i: int| 0 <= i < absences.len() && absences[i].intent_id == id
}

/// No identifier occurs twice in the active set.
pub open spec fn distinct_active_ids(active: Seq<IntentView>) -> bool {
    forall|i: int, j: int| 0 <= i < j < active.len() ==> active[i].id != active[j].id
}

/// No identifier occurs twice among the recorded absences.
pub open spec fn distinct_absence_ids(absences: Seq<AbsenceView>) -> bool {
    forall|i: int, j: int|
        0 <= i < j < absences.len() ==> absences[i].intent_id != absences[j].intent_id
}

/// Well-formedness of a ledger: identifiers are unique within the active
/// set and within the absence records, and membership is exclusive — an
/// identifier is never both active and crystallized.
pub open spec fn ledger_wf(v: LedgerView) -> bool {
    &&& distinct_active_ids(v.active)
    &&& distinct_absence_ids(v.absences)
    &&& forall|i: int, j: int|
        0 <= i < v.active.len() && 0 <= j < v.absences.len() ==> v.active[i].id
            != v.absences[j].intent_id
}

/// The active set with every intent of the given identifier removed.
pub open spec fn remove_id(active: Seq<IntentView>, id: Seq<char>) -> Seq<IntentView> {
    active.filter(|x: IntentView| x.id != id)
}

/// The contract any ledger backend must satisfy: storage of accounts,
/// balances, active intents and crystallized absences. `ledger()` is the
/// backend's mathematical contents and `inv()` its internal invariant,
/// which implies ledger well-formedness.
pub trait IntentRegistry: Sized {
    /// The ledger's mathematical contents.
    spec fn ledger(&self) -> LedgerView;

    /// The backend's internal invariant.
    spec fn inv(&self) -> bool;

    /// The invariant implies that the ledger is well-formed.
    proof fn inv_implies_wf(&self)
        requires
            self.inv(),
        ensures
            ledger_wf(self.ledger()),
    ;

    /// Registers an intent into the active set, keyed by its identifier.
    /// Fails with `DuplicateIntent`, mutating nothing, exactly when the
    /// identifier is already active or already crystallized.
    fn add_intent(&mut self, intent: Intent) -> (r: Result<(), RegistryError>)
        requires
            old(self).inv(),
        ensures
            final(self).inv(),
            r is Ok <==> !(has_active_id(old(self).ledger().active, intent@.id) || has_absence_id(
                old(self).ledger().absences,
                intent@.id,
            )),
            r is Ok ==> final(self).ledger().active == old(self).ledger().active.push(intent@),
            r is Err ==> final(self).ledger().active == old(self).ledger().active,
            r matches Err(e) ==> e == RegistryError::DuplicateIntent,
            final(self).ledger().balances == old(self).ledger().balances,
            final(self).ledger().absences == old(self).ledger().absences,
    ;

    /// Returns every intent currently active, in registration order, with
    /// no side effect.
    fn get_active(&self) -> (r: Vec<Intent>)
        ensures
            intents_view(r@) == self.ledger().active,
    ;

    /// Removes the intent with the given identifier from the active set;
    /// removal of an absent identifier is a no-op.
    fn remove_active(&mut self, id: &IntentId)
        requires
            old(self).inv(),
        ensures
            final(self).inv(),
            final(self).ledger().active == remove_id(old(self).ledger().active, id@),
            final(self).ledger().balances == old(self).ledger().balances,
            final(self).ledger().absences == old(self).ledger().absences,
    ;

    /// Durably records a crystallized absence, keyed by its intent
    /// identifier. The caller must have retired the identifier: it may be
    /// neither active nor already recorded.
    fn record_absence(&mut self, absence: Absence)
        requires
            old(self).inv(),
            !has_absence_id(old(self).ledger().absences, absence@.intent_id),
            !has_active_id(old(self).ledger().active, absence@.intent_id),
        ensures
            final(self).inv(),
            final(self).ledger().absences == old(self).ledger().absences.push(absence@),
            final(self).ledger().active == old(self).ledger().active,
            final(self).ledger().balances == old(self).ledger().balances,
    ;

    /// Returns the account's balance, 0 for an unseeded account, with no
    /// side effect.
    fn get_balance(&self, account: &str) -> (r: u64)
        ensures
            r == balance_of(self.ledger().balances, account@),
    ;

    /// Overwrites a balance: the administrative seeding operation, not
    /// part of the slashing path.
    fn set_balance(&mut self, account: &str, amount: u64)
        requires
            old(self).inv(),
        ensures
            final(self).inv(),
            final(self).ledger().balances == old(self).ledger().balances.insert(account@, amount),
            final(self).ledger().active == old(self).ledger().active,
            final(self).ledger().absences == old(self).ledger().absences,
    ;

    /// Deducts `amount` from the account's balance, saturating at zero:
    /// deducting more than the balance empties the account and never
    /// underflows.
    fn slash(&mut self, account: &str, amount: u64)
        requires
            old(self).inv(),
        ensures
            final(self).inv(),
            final(self).ledger().balances == old(self).ledger().balances.insert(
                account@,
                sat_sub(balance_of(old(self).ledger().balances, account@), amount),
            ),
            final(self).ledger().active == old(self).ledger().active,
            final(self).ledger().absences == old(self).ledger().absences,
    ;
}

/// A sequence whose elements all satisfy the predicate filters to itself.
pub proof fn lemma_filter_all_true<A>(s: Seq<A>, pred: spec_fn(A) -> bool)
    requires
        forall|i: int| 0 <= i < s.len() ==> pred(s[i]),
    ensures
        s.filter(pred) == s,
    decreases s.len(),
{
    reveal(Seq::filter);
    if s.len() > 0 {
        lemma_filter_all_true(s.drop_last(), pred);
        assert(s.drop_last().push(s.last()) =~= s);
    }
}

/// Predicates that agree on every element of a sequence filter it to the
/// same result.
pub proof fn lemma_filter_pointwise<A>(s: Seq<A>, p: spec_fn(A) -> bool, q: spec_fn(A) -> bool)
    requires
        forall|i: int| 0 <= i < s.len() ==> p(s[i]) == q(s[i]),
    ensures
        s.filter(p) == s.filter(q),
    decreases s.len(),
{
    reveal(Seq::filter);
    if s.len() > 0 {
        lemma_filter_pointwise(s.drop_last(), p, q);
    }
}

/// Filtering twice is filtering by the conjunction.
pub proof fn lemma_filter_filter<A>(s: Seq<A>, p: spec_fn(A) -> bool, q: spec_fn(A) -> bool)
    ensures
        s.filter(p).filter(q) == s.filter(|x: A| p(x) && q(x)),
    decreases s.len(),
{
    reveal(Seq::filter);
    if s.len() > 0 {
        lemma_filter_filter(s.drop_last(), p, q);
        if p(s.last()) {
            assert(s.drop_last().filter(p).push(s.last()).drop_last() =~= s.drop_last().filter(p));
        }
    }
}

/// Filtering an active set with distinct identifiers keeps them distinct.
pub proof fn lemma_filter_distinct_ids(s: Seq<IntentView>, pred: spec_fn(IntentView) -> bool)
    requires
        distinct_active_ids(s),
    ensures
        distinct_active_ids(s.filter(pred)),
    decreases s.len(),
{
    reveal(Seq::filter);
    if s.len() > 0 {
        assert(distinct_active_ids(s.drop_last())) by {
            assert(forall|i: int, j: int|
                0 <= i < j < s.drop_last().len() ==> s.drop_last()[i].id != s.drop_last()[j].id);
        }
        lemma_filter_distinct_ids(s.drop_last(), pred);
        if pred(s.last()) {
            let f = s.drop_last().filter(pred);
            assert forall|i: int, j: int|
                0 <= i < j < f.push(s.last()).len() implies f.push(s.last())[i].id != f.push(
                s.last(),
            )[j].id by {
                if j < f.len() {
                } else {
                    assert(f.contains(f[i]));
                    s.drop_last().lemma_filter_contains_rev(pred, f[i]);
                    let k = choose|k: int|
                        0 <= k < s.drop_last().len() && s.drop_last()[k] == f[i];
                    assert(s[k] == f[i]);
                    assert(s[k].id != s[s.len() - 1].id);
                }
            }
        }
    }
}

/// Every element of a filtered sequence stands somewhere in the original.
pub proof fn lemma_filter_element_index<A>(s: Seq<A>, pred: spec_fn(A) -> bool, i: int) -> (k: int)
    requires
        0 <= i < s.filter(pred).len(),
    ensures
        0 <= k < s.len(),
        s[k] == s.filter(pred)[i],
        pred(s[k]),
{
    let f = s.filter(pred);
    assert(f.contains(f[i]));
    s.lemma_filter_contains_rev(pred, f[i]);
    let k = choose|k: int| 0 <= k < s.len() && s[k] == f[i];
    s.lemma_filter_pred(pred, i);
    k
}

/// Removing an identifier from a well-formed ledger's active set keeps
/// the ledger well-formed, and the identifier is gone.
pub proof fn lemma_remove_id_wf(v: LedgerView, id: Seq<char>)
    requires
        ledger_wf(v),
    ensures
        ledger_wf(LedgerView { active: remove_id(v.active, id), ..v }),
        !has_active_id(remove_id(v.active, id), id),
{
    let pred = |x: IntentView| x.id != id;
    let f = v.active.filter(pred);
    lemma_filter_distinct_ids(v.active, pred);
    assert forall|i: int, j: int|
        0 <= i < f.len() && 0 <= j < v.absences.len() implies f[i].id != v.absences[j].intent_id by {
        let k = lemma_filter_element_index(v.active, pred, i);
    }
    assert forall|i: int| 0 <= i < f.len() implies f[i].id != id by {
        v.active.lemma_filter_pred(pred, i);
    }
}

} // verus!
