//! In-memory Ledger: the reference implementation of the Ledger Capability
//! over process-resident vectors, used standalone and as the default
//! backend of the absence engine.
use crate::model::Absence;
use crate::model::AbsenceView;
use crate::model::Intent;
use crate::model::IntentId;
use crate::model::IntentView;
use crate::registry::absences_view;
use crate::registry::balance_of;
use crate::registry::has_absence_id;
use crate::registry::has_active_id;
use crate::registry::intents_view;
use crate::registry::ledger_wf;
use crate::registry::lemma_remove_id_wf;
use crate::registry::remove_id;
use crate::registry::IntentRegistry;
use crate::registry::LedgerView;
use crate::registry::RegistryError;
use vstd::prelude::*;

verus! {

/// The balance map held by an association list, a later entry for a key
/// overriding an earlier one.
pub open spec fn assoc_map(s: Seq<(Seq<char>, u64)>) -> Map<Seq<char>, u64>
    decreases s.len(),
{
    if s.len() == 0 {
        Map::empty()
    } else {
        assoc_map(s.drop_last()).insert(s.last().0, s.last().1)
    }
}

/// The view of the balance store's entries.
pub open spec fn entries_view(s: Seq<(String, u64)>) -> Seq<(Seq<char>, u64)> {
    s.map_values(|p: (String, u64)| (p.0@, p.1))
}

/// Dropping every entry of one key from an association list removes that
/// key from the map it holds.
proof fn lemma_assoc_filter_out(
    s: Seq<(Seq<char>, u64)>,
    k: Seq<char>,
    pred: spec_fn((Seq<char>, u64)) -> bool,
)
    requires
        forall|p: (Seq<char>, u64)| #[trigger] pred(p) == (p.0 != k),
    ensures
        assoc_map(s.filter(pred)) == assoc_map(s).remove(k),
    decreases s.len(),
{
    reveal(Seq::filter);
    if s.len() == 0 {
        assert(assoc_map(s).remove(k) =~= Map::<Seq<char>, u64>::empty());
    } else {
        lemma_assoc_filter_out(s.drop_last(), k, pred);
        let rest = s.drop_last().filter(pred);
        if pred(s.last()) {
            assert(rest.push(s.last()).drop_last() =~= rest);
            assert(assoc_map(s.drop_last()).remove(k).insert(s.last().0, s.last().1) =~= assoc_map(
                s.drop_last(),
            ).insert(s.last().0, s.last().1).remove(k));
        } else {
            assert(assoc_map(s.drop_last()).insert(s.last().0, s.last().1).remove(k) =~= assoc_map(
                s.drop_last(),
            ).remove(k));
        }
    }
}

/// A concrete Ledger Capability backed by process memory: an account
/// balance list, the active intents, and the crystallized absences.
pub struct MemoryRegistry {
    balances: Vec<(String, u64)>,
    active: Vec<Intent>,
    absences: Vec<Absence>,
}

impl MemoryRegistry {
    /// An empty ledger: no accounts, no active intents, no absences.
    pub fn new() -> (r: MemoryRegistry)
        ensures
            r.inv(),
            r.ledger() == (LedgerView {
                active: Seq::<IntentView>::empty(),
                balances: Map::<Seq<char>, u64>::empty(),
                absences: Seq::<AbsenceView>::empty(),
            }),
    {
        let r = MemoryRegistry { balances: Vec::new(), active: Vec::new(), absences: Vec::new() };
        proof {
            assert(r.ledger() =~= (LedgerView {
                active: Seq::<IntentView>::empty(),
                balances: Map::<Seq<char>, u64>::empty(),
                absences: Seq::<AbsenceView>::empty(),
            }));
        }
        r
    }
}

impl IntentRegistry for MemoryRegistry {
    closed spec fn ledger(&self) -> LedgerView {
        LedgerView {
            active: intents_view(self.active@),
            balances: assoc_map(entries_view(self.balances@)),
            absences: absences_view(self.absences@),
        }
    }

    closed spec fn inv(&self) -> bool {
        ledger_wf(self.ledger())
    }

    proof fn inv_implies_wf(&self) {
    }

    #[verifier::loop_isolation(false)]
    fn add_intent(&mut self, intent: Intent) -> (r: Result<(), RegistryError>) {
        let ghost av = intents_view(self.active@);
        let mut i: usize = 0;
        while i < self.active.len()
            invariant
                i <= self.active@.len(),
                forall|k: int| 0 <= k < i ==> av[k].id != intent@.id,
            decreases self.active@.len() - i,
        {
            if self.active[i].id.0 == intent.id.0 {
                proof {
                    assert(av[i as int].id == intent@.id);
                    assert(has_active_id(av, intent@.id));
                }
                return Err(RegistryError::DuplicateIntent);
            }
            i = i + 1;
        }
        let ghost bv = absences_view(self.absences@);
        let mut j: usize = 0;
        while j < self.absences.len()
            invariant
                j <= self.absences@.len(),
                forall|k: int| 0 <= k < j ==> bv[k].intent_id != intent@.id,
            decreases self.absences@.len() - j,
        {
            if self.absences[j].intent_id.0 == intent.id.0 {
                proof {
                    assert(bv[j as int].intent_id == intent@.id);
                    assert(has_absence_id(bv, intent@.id));
                }
                return Err(RegistryError::DuplicateIntent);
            }
            j = j + 1;
        }
        self.active.push(intent);
        proof {
            assert(intents_view(self.active@) =~= av.push(intent@));
        }
        Ok(())
    }

    #[verifier::loop_isolation(false)]
    fn get_active(&self) -> (r: Vec<Intent>) {
        let mut r: Vec<Intent> = Vec::new();
        let mut i: usize = 0;
        while i < self.active.len()
            invariant
                i <= self.active@.len(),
                r@.len() == i,
                forall|k: int| 0 <= k < i ==> r@[k] == self.active@[k],
            decreases self.active@.len() - i,
        {
            r.push(self.active[i].clone());
            i = i + 1;
        }
        proof {
            assert(intents_view(r@) =~= intents_view(self.active@));
        }
        r
    }

    #[verifier::loop_isolation(false)]
    fn remove_active(&mut self, id: &IntentId) {
        let ghost av = intents_view(old(self).active@);
        let ghost predv = |x: IntentView| x.id != id@;
        let mut kept: Vec<Intent> = Vec::new();
        let mut i: usize = 0;
        while i < self.active.len()
            invariant
                i <= self.active@.len(),
                self.active@ == old(self).active@,
                intents_view(kept@) == av.take(i as int).filter(predv),
            decreases self.active@.len() - i,
        {
            proof {
                assert(av.take(i as int + 1) =~= av.take(i as int).push(av[i as int]));
                av.take(i as int).lemma_filter_push(av[i as int], predv);
            }
            if !(self.active[i].id.0 == id.0) {
                kept.push(self.active[i].clone());
                proof {
                    assert(intents_view(kept@) =~= av.take(i as int).filter(predv).push(
                        av[i as int],
                    ));
                }
            }
            i = i + 1;
        }
        proof {
            assert(av.take(self.active@.len() as int) =~= av);
        }
        self.active = kept;
        proof {
            lemma_remove_id_wf(old(self).ledger(), id@);
            assert(self.ledger() =~= (LedgerView {
                active: remove_id(old(self).ledger().active, id@),
                ..old(self).ledger()
            }));
        }
    }

    fn record_absence(&mut self, absence: Absence) {
        let ghost bv = absences_view(old(self).absences@);
        self.absences.push(absence);
        proof {
            assert(absences_view(self.absences@) =~= bv.push(absence@));
            let v = self.ledger();
            assert forall|i: int, j: int| 0 <= i < j < v.absences.len() implies v.absences[i].intent_id
                != v.absences[j].intent_id by {
                if j == v.absences.len() - 1 {
                    assert(!has_absence_id(bv, absence@.intent_id));
                }
            }
            assert forall|i: int, j: int|
                0 <= i < v.active.len() && 0 <= j < v.absences.len() implies v.active[i].id
                != v.absences[j].intent_id by {
                if j == v.absences.len() - 1 {
                    assert(!has_active_id(old(self).ledger().active, absence@.intent_id));
                }
            }
        }
    }

    #[verifier::loop_isolation(false)]
    fn get_balance(&self, account: &str) -> (r: u64) {
        let account_string: String = account.to_owned();
        let ghost es = entries_view(self.balances@);
        let mut j: usize = self.balances.len();
        proof {
            assert(es.take(j as int) =~= es);
        }
        while j > 0
            invariant
                j <= self.balances@.len(),
                balance_of(assoc_map(es), account@) == balance_of(
                    assoc_map(es.take(j as int)),
                    account@,
                ),
            decreases j,
        {
            let idx = j - 1;
            proof {
                assert(es.take(j as int).drop_last() =~= es.take(idx as int));
                assert(es.take(j as int).last() == es[idx as int]);
            }
            if self.balances[idx].0 == account_string {
                return self.balances[idx].1;
            }
            j = idx;
        }
        0
    }

    #[verifier::loop_isolation(false)]
    fn set_balance(&mut self, account: &str, amount: u64) {
        let account_string: String = account.to_owned();
        let ghost es = entries_view(old(self).balances@);
        let ghost pred = |p: (Seq<char>, u64)| p.0 != account@;
        let mut kept: Vec<(String, u64)> = Vec::new();
        let mut i: usize = 0;
        while i < self.balances.len()
            invariant
                i <= self.balances@.len(),
                self.balances@ == old(self).balances@,
                entries_view(kept@) == es.take(i as int).filter(pred),
            decreases self.balances@.len() - i,
        {
            proof {
                assert(es.take(i as int + 1) =~= es.take(i as int).push(es[i as int]));
                es.take(i as int).lemma_filter_push(es[i as int], pred);
            }
            if !(self.balances[i].0 == account_string) {
                let entry = (self.balances[i].0.clone(), self.balances[i].1);
                kept.push(entry);
                proof {
                    assert(entries_view(kept@) =~= es.take(i as int).filter(pred).push(
                        es[i as int],
                    ));
                }
            }
            i = i + 1;
        }
        proof {
            assert(es.take(self.balances@.len() as int) =~= es);
        }
        kept.push((account_string, amount));
        self.balances = kept;
        proof {
            let x = entries_view(self.balances@);
            let filtered = es.filter(pred);
            assert(x.drop_last() =~= filtered);
            assert(x.last() == (account@, amount));
            assert(x.len() > 0);
            assert(assoc_map(x) == assoc_map(filtered).insert(account@, amount));
            lemma_assoc_filter_out(es, account@, pred);
            assert(assoc_map(es).remove(account@).insert(account@, amount) =~= assoc_map(
                es,
            ).insert(account@, amount));
            assert(assoc_map(x) == assoc_map(es).insert(account@, amount));
        }
    }

    fn slash(&mut self, account: &str, amount: u64) {
        let balance = self.get_balance(account);
        let new_balance = if balance >= amount {
            balance - amount
        } else {
            0
        };
        self.set_balance(account, new_balance);
    }
}

} // verus!
