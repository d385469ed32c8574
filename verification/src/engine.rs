//! Absence Engine: the catch-up state machine. It owns a Ledger
//! Capability and the current slot, and exposes `advance_time`, the sole
//! operation that crystallizes overdue intents into absences.
//!
//! The sweep predicate compares each active intent's deadline directly
//! against the destination slot, never against intermediate slots: one
//! call across an arbitrary gap reaches the same state as any chain of
//! smaller advances ending at the same slot.
use crate::model::Absence;
use crate::model::AbsenceView;
use crate::model::Intent;
use crate::model::IntentView;
use crate::model::Slot;
use crate::registry::absences_view;
use crate::registry::balance_of;
use crate::registry::has_absence_id;
use crate::registry::has_active_id;
use crate::registry::intents_view;
use crate::registry::ledger_wf;
use crate::registry::lemma_filter_all_true;
use crate::registry::lemma_filter_element_index;
use crate::registry::sat_sub;
use crate::registry::IntentRegistry;
use crate::registry::LedgerView;
use crate::registry::RegistryError;
use vstd::prelude::*;

verus! {

/// Failures surfaced by the engine.
#[derive(Clone, Copy, PartialEq, Eq, Structural, Debug)]
pub enum EngineError {
    /// `advance_time` was called with a target before the current slot;
    /// time never moves backward and nothing was mutated.
    NonMonotonicTime,
}

/// Mathematical image of the engine: the current slot and the ledger's
/// contents.
#[verifier::ext_equal]
pub struct EngineView {
    pub slot: Slot,
    pub ledger: LedgerView,
}

/// The intents a sweep to `target` crystallizes: the sweep predicate is
/// `deadline < target`, evaluated against the destination slot alone.
pub open spec fn overdue(active: Seq<IntentView>, target: Slot) -> Seq<IntentView> {
    active.filter(|x: IntentView| x.deadline < target)
}

/// The intents that survive a sweep to `target`.
pub open spec fn retained(active: Seq<IntentView>, target: Slot) -> Seq<IntentView> {
    active.filter(|x: IntentView| x.deadline >= target)
}

/// The absence each listed intent crystallizes into, declared at `target`.
pub open spec fn to_absences(intents: Seq<IntentView>, target: Slot) -> Seq<AbsenceView> {
    intents.map_values(|x: IntentView| AbsenceView { intent_id: x.id, declared_at: target })
}

/// The absences a sweep to `target` crystallizes, in active-set order,
/// each declared at the sweep's destination slot.
pub open spec fn crystallize_batch(active: Seq<IntentView>, target: Slot) -> Seq<AbsenceView> {
    to_absences(overdue(active, target), target)
}

/// Balances after slashing one intent's creator by its collateral,
/// saturating at zero.
pub open spec fn slash_one(balances: Map<Seq<char>, u64>, x: IntentView) -> Map<Seq<char>, u64> {
    balances.insert(x.creator, sat_sub(balance_of(balances, x.creator), x.collateral))
}

/// Balances after slashing each listed intent's creator in turn.
pub open spec fn slash_all(balances: Map<Seq<char>, u64>, intents: Seq<IntentView>) -> Map<
    Seq<char>,
    u64,
>
    decreases intents.len(),
{
    if intents.len() == 0 {
        balances
    } else {
        slash_all(slash_one(balances, intents[0]), intents.drop_first())
    }
}

/// One sweep as a mathematical transition: the state `advance_time`
/// reaches from `v` when called with `target >= v.slot`.
pub open spec fn sweep(v: EngineView, target: Slot) -> EngineView {
    EngineView {
        slot: target,
        ledger: LedgerView {
            active: retained(v.ledger.active, target),
            balances: slash_all(v.ledger.balances, overdue(v.ledger.active, target)),
            absences: v.ledger.absences + crystallize_batch(v.ledger.active, target),
        },
    }
}

/// Slashing after one more intent is slashing that intent after the rest.
proof fn lemma_slash_all_push(
    balances: Map<Seq<char>, u64>,
    intents: Seq<IntentView>,
    x: IntentView,
)
    ensures
        slash_all(balances, intents.push(x)) == slash_one(slash_all(balances, intents), x),
    decreases intents.len(),
{
    if intents.len() == 0 {
        assert(intents.push(x).drop_first() =~= intents);
        assert(intents.push(x)[0] == x);
        assert(slash_all(balances, intents) == balances);
        assert(slash_all(slash_one(balances, x), intents) == slash_one(balances, x));
    } else {
        assert(intents.push(x)[0] == intents[0]);
        assert(intents.push(x).drop_first() =~= intents.drop_first().push(x));
        lemma_slash_all_push(slash_one(balances, intents[0]), intents.drop_first(), x);
    }
}

/// The absence engine: a Ledger Capability instance it exclusively owns,
/// and the machine's current slot. All persistent facts live in the
/// ledger.
pub struct AbsenceEngine<R: IntentRegistry> {
    registry: R,
    current_slot: Slot,
}

impl<R: IntentRegistry> View for AbsenceEngine<R> {
    type V = EngineView;

    closed spec fn view(&self) -> EngineView {
        EngineView { slot: self.current_slot, ledger: self.registry.ledger() }
    }
}

impl<R: IntentRegistry> AbsenceEngine<R> {
    /// The engine's invariant: its ledger backend's invariant.
    pub closed spec fn inv(&self) -> bool {
        self.registry.inv()
    }

    /// The engine's ledger is well-formed whenever its invariant holds.
    pub proof fn inv_implies_wf(&self)
        requires
            self.inv(),
        ensures
            ledger_wf(self@.ledger),
    {
        self.registry.inv_implies_wf();
    }

    /// Takes ownership of a ledger and an initial slot.
    pub fn new(registry: R, start_slot: Slot) -> (r: AbsenceEngine<R>)
        requires
            registry.inv(),
        ensures
            r.inv(),
            r@ == (EngineView { slot: start_slot, ledger: registry.ledger() }),
    {
        AbsenceEngine { registry, current_slot: start_slot }
    }

    /// The machine's current slot.
    pub fn current_slot(&self) -> (r: Slot)
        ensures
            r == self@.slot,
    {
        self.current_slot
    }

    /// Registers an intent with the owned ledger; the registration path.
    /// Fails with `DuplicateIntent`, mutating nothing, exactly when the
    /// identifier is already active or already crystallized.
    pub fn register_intent(&mut self, intent: Intent) -> (r: Result<(), RegistryError>)
        requires
            old(self).inv(),
        ensures
            final(self).inv(),
            final(self)@.slot == old(self)@.slot,
            r is Ok <==> !(has_active_id(old(self)@.ledger.active, intent@.id) || has_absence_id(
                old(self)@.ledger.absences,
                intent@.id,
            )),
            r is Ok ==> final(self)@.ledger.active == old(self)@.ledger.active.push(intent@),
            r is Err ==> final(self)@.ledger.active == old(self)@.ledger.active,
            r matches Err(e) ==> e == RegistryError::DuplicateIntent,
            final(self)@.ledger.balances == old(self)@.ledger.balances,
            final(self)@.ledger.absences == old(self)@.ledger.absences,
    {
        self.registry.add_intent(intent)
    }

    /// Seeds or overwrites an account balance in the owned ledger.
    pub fn set_balance(&mut self, account: &str, amount: u64)
        requires
            old(self).inv(),
        ensures
            final(self).inv(),
            final(self)@.slot == old(self)@.slot,
            final(self)@.ledger.balances == old(self)@.ledger.balances.insert(account@, amount),
            final(self)@.ledger.active == old(self)@.ledger.active,
            final(self)@.ledger.absences == old(self)@.ledger.absences,
    {
        self.registry.set_balance(account, amount);
    }

    /// Reads an account balance from the owned ledger, 0 if unseeded.
    pub fn get_balance(&self, account: &str) -> (r: u64)
        ensures
            r == balance_of(self@.ledger.balances, account@),
    {
        self.registry.get_balance(account)
    }

    /// Returns every currently active intent, in registration order.
    pub fn get_active(&self) -> (r: Vec<Intent>)
        ensures
            intents_view(r@) == self@.ledger.active,
    {
        self.registry.get_active()
    }

    /// Advances the machine's notion of time to `target_slot` and
    /// crystallizes every active intent whose deadline lies before it.
    ///
    /// On success the reached state is exactly `sweep` of the old state,
    /// and the returned batch holds one absence per overdue intent,
    /// declared at the destination slot. A target before the current slot
    /// is rejected and mutates nothing.
    #[verifier::loop_isolation(false)]
    #[verifier::rlimit(100)]
    pub fn advance_time(&mut self, target_slot: Slot) -> (r: Result<Vec<Absence>, EngineError>)
        requires
            old(self).inv(),
        ensures
            final(self).inv(),
            r is Ok <==> target_slot >= old(self)@.slot,
            r matches Err(e) ==> e == EngineError::NonMonotonicTime && final(self)@ == old(
                self,
            )@,
            r matches Ok(batch) ==> final(self)@ == sweep(old(self)@, target_slot)
                && absences_view(batch@) == crystallize_batch(old(self)@.ledger.active, target_slot),
    {
        if target_slot < self.current_slot {
            return Err(EngineError::NonMonotonicTime);
        }
        proof {
            self.registry.inv_implies_wf();
        }
        let ghost v0 = self@;
        let active_intents = self.registry.get_active();
        let ghost a = v0.ledger.active;
        let ghost keep = |x: IntentView| x.deadline >= target_slot;
        let ghost due = |x: IntentView| x.deadline < target_slot;
        let mut batch: Vec<Absence> = Vec::new();
        let mut i: usize = 0;
        proof {
            reveal(Seq::filter);
            assert(a.take(0).filter(keep) =~= Seq::<IntentView>::empty());
            assert(a.take(0).filter(due) =~= Seq::<IntentView>::empty());
            assert(a.take(0).filter(keep) + a.skip(0) =~= a);
            assert(crystallize_batch(a.take(0), target_slot) =~= Seq::<AbsenceView>::empty());
            assert(v0.ledger.absences + crystallize_batch(a.take(0), target_slot)
                =~= v0.ledger.absences);
            assert(absences_view(batch@) =~= Seq::<AbsenceView>::empty());
        }
        while i < active_intents.len()
            invariant
                i <= active_intents@.len(),
                self.registry.inv(),
                self.current_slot == old(self).current_slot,
                self.registry.ledger().active == a.take(i as int).filter(keep) + a.skip(i as int),
                self.registry.ledger().balances == slash_all(
                    v0.ledger.balances,
                    overdue(a.take(i as int), target_slot),
                ),
                self.registry.ledger().absences == v0.ledger.absences + crystallize_batch(
                    a.take(i as int),
                    target_slot,
                ),
                absences_view(batch@) == crystallize_batch(a.take(i as int), target_slot),
            decreases active_intents@.len() - i,
        {
            let ghost x = a[i as int];
            proof {
                assert(a.take(i as int + 1) =~= a.take(i as int).push(x));
                a.take(i as int).lemma_filter_push(x, keep);
                a.take(i as int).lemma_filter_push(x, due);
            }
            let intent = &active_intents[i];
            if intent.deadline < target_slot {
                let ghost act0 = self.registry.ledger().active;
                let ghost bal0 = self.registry.ledger().balances;
                let ghost abs0 = self.registry.ledger().absences;
                let ghost q = |y: IntentView| y.id != x.id;
                self.registry.remove_active(&intent.id);
                proof {
                    reveal(Seq::filter);
                    Seq::filter_distributes_over_add(
                        a.take(i as int).filter(keep),
                        a.skip(i as int),
                        q,
                    );
                    // the already-kept prefix never holds the removed id
                    assert forall|j: int|
                        0 <= j < a.take(i as int).filter(keep).len() implies q(
                        a.take(i as int).filter(keep)[j],
                    ) by {
                        let k = lemma_filter_element_index(a.take(i as int), keep, j);
                        if a.take(i as int)[k].id == x.id {
                            assert(a[k] == a.take(i as int)[k]);
                            assert(a[k].id == a[i as int].id);
                            assert(k < i);
                        }
                    }
                    lemma_filter_all_true(a.take(i as int).filter(keep), q);
                    // the unprocessed tail past this intent never holds it either
                    assert(a.skip(i as int) =~= seq![x] + a.skip(i as int + 1));
                    Seq::filter_distributes_over_add(seq![x], a.skip(i as int + 1), q);
                    assert(seq![x].drop_last() =~= Seq::<IntentView>::empty());
                    assert(Seq::<IntentView>::empty().filter(q) =~= Seq::<IntentView>::empty());
                    assert(seq![x].filter(q) =~= Seq::<IntentView>::empty());
                    assert forall|j: int| 0 <= j < a.skip(i as int + 1).len() implies q(
                        #[trigger] a.skip(i as int + 1)[j],
                    ) by {
                        assert(a.skip(i as int + 1)[j] == a[i as int + 1 + j]);
                    }
                    lemma_filter_all_true(a.skip(i as int + 1), q);
                    assert(self.registry.ledger().active == a.take(i as int).filter(keep) + a.skip(
                        i as int + 1,
                    ));
                    assert(a.take(i as int + 1).filter(keep) == a.take(i as int).filter(keep));
                }
                self.registry.slash(intent.creator.as_str(), intent.collateral);
                proof {
                    lemma_slash_all_push(
                        v0.ledger.balances,
                        overdue(a.take(i as int), target_slot),
                        x,
                    );
                    assert(overdue(a.take(i as int + 1), target_slot) == overdue(
                        a.take(i as int),
                        target_slot,
                    ).push(x));
                    assert(self.registry.ledger().balances == slash_all(
                        v0.ledger.balances,
                        overdue(a.take(i as int + 1), target_slot),
                    ));
                }
                let absence = Absence { intent_id: intent.id.clone(), declared_at: target_slot };
                proof {
                    // the crystallized identifier is in no earlier absence record
                    assert forall|j: int| 0 <= j < self.registry.ledger().absences.len() implies self.registry.ledger().absences[j].intent_id
                        != x.id by {
                        if j < v0.ledger.absences.len() {
                        } else {
                            let c = crystallize_batch(a.take(i as int), target_slot);
                            let jj = j - v0.ledger.absences.len();
                            assert(c[jj].intent_id == overdue(a.take(i as int), target_slot)[jj].id);
                            let k = lemma_filter_element_index(a.take(i as int), due, jj);
                            if a.take(i as int)[k].id == x.id {
                                assert(a[k] == a.take(i as int)[k]);
                                assert(a[k].id == a[i as int].id);
                                assert(k < i);
                            }
                        }
                    }
                    assert(!has_absence_id(self.registry.ledger().absences, absence@.intent_id));
                    // nor is it active any longer
                    assert forall|j: int|
                        0 <= j < self.registry.ledger().active.len() implies self.registry.ledger().active[j].id
                        != x.id by {
                        let act = a.take(i as int).filter(keep) + a.skip(i as int + 1);
                        if j < a.take(i as int).filter(keep).len() {
                            assert(act[j] == a.take(i as int).filter(keep)[j]);
                        } else {
                            assert(act[j] == a.skip(i as int + 1)[j - a.take(i as int).filter(
                                keep,
                            ).len()]);
                        }
                    }
                    assert(!has_active_id(self.registry.ledger().active, absence@.intent_id));
                }
                self.registry.record_absence(absence.clone());
                batch.push(absence);
                proof {
                    let mk = |y: IntentView| AbsenceView {
                        intent_id: y.id,
                        declared_at: target_slot,
                    };
                    assert(crystallize_batch(a.take(i as int + 1), target_slot) =~= crystallize_batch(
                        a.take(i as int),
                        target_slot,
                    ).push((AbsenceView { intent_id: x.id, declared_at: target_slot })));
                    assert(absences_view(batch@) =~= crystallize_batch(
                        a.take(i as int),
                        target_slot,
                    ).push((AbsenceView { intent_id: x.id, declared_at: target_slot })));
                    assert(v0.ledger.absences + crystallize_batch(a.take(i as int + 1), target_slot)
                        =~= (v0.ledger.absences + crystallize_batch(a.take(i as int), target_slot)).push(
                        (AbsenceView { intent_id: x.id, declared_at: target_slot }),
                    ));
                }
            } else {
                proof {
                    assert(a.take(i as int + 1).filter(keep) =~= a.take(i as int).filter(keep).push(
                        x,
                    ));
                    assert(a.take(i as int + 1).filter(keep) + a.skip(i as int + 1) =~= a.take(
                        i as int,
                    ).filter(keep) + a.skip(i as int));
                    assert(overdue(a.take(i as int + 1), target_slot) == overdue(
                        a.take(i as int),
                        target_slot,
                    ));
                    assert(crystallize_batch(a.take(i as int + 1), target_slot) == crystallize_batch(
                        a.take(i as int),
                        target_slot,
                    ));
                }
            }
            i = i + 1;
        }
        self.current_slot = target_slot;
        proof {
            assert(a.take(a.len() as int) =~= a);
            assert(a.skip(a.len() as int) =~= Seq::<IntentView>::empty());
            assert(a.take(a.len() as int).filter(keep) + a.skip(a.len() as int) =~= a.filter(keep));
            assert(self@ =~~= sweep(v0, target_slot));
        }
        Ok(batch)
    }
}

} // verus!
