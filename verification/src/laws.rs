//! The engine's laws, stated over the mathematical sweep transition and
//! proved once and for all: exactly-once crystallization, gap
//! independence, idempotence at a fixed point, and balance conservation
//! under slashing.
use crate::engine::crystallize_batch;
use crate::engine::overdue;
use crate::engine::retained;
use crate::engine::slash_all;
use crate::engine::slash_one;
use crate::engine::sweep;
use crate::engine::to_absences;
use crate::engine::EngineView;
use crate::model::AbsenceView;
use crate::model::IntentView;
use crate::model::Slot;
use crate::registry::balance_of;
use crate::registry::has_absence_id;
use crate::registry::has_active_id;
use crate::registry::ledger_wf;
use crate::registry::lemma_filter_all_true;
use crate::registry::lemma_filter_element_index;
use crate::registry::lemma_filter_filter;
use crate::registry::lemma_filter_pointwise;
use vstd::prelude::*;

verus! {

/// The collateral one intent contributes to an account's total exposure.
pub open spec fn collateral_toward(x: IntentView, account: Seq<char>) -> int {
    if x.creator == account {
        x.collateral as int
    } else {
        0
    }
}

/// The total collateral the account has posted among `intents`.
pub open spec fn owed(intents: Seq<IntentView>, account: Seq<char>) -> int
    decreases intents.len(),
{
    if intents.len() == 0 {
        0
    } else {
        owed(intents.drop_last(), account) + collateral_toward(intents.last(), account)
    }
}

/// Deducting a total that exceeds the balance empties the account.
pub open spec fn sat_sub_total(balance: u64, total: int) -> u64 {
    if total <= balance {
        (balance - total) as u64
    } else {
        0
    }
}

/// The set of creator accounts among `intents`.
pub open spec fn creators_of(intents: Seq<IntentView>) -> Set<Seq<char>>
    decreases intents.len(),
{
    if intents.len() == 0 {
        Set::empty()
    } else {
        creators_of(intents.drop_last()).insert(intents.last().creator)
    }
}

/// The set of identifiers among `intents`.
pub open spec fn intent_ids_of(intents: Seq<IntentView>) -> Set<Seq<char>>
    decreases intents.len(),
{
    if intents.len() == 0 {
        Set::empty()
    } else {
        intent_ids_of(intents.drop_last()).insert(intents.last().id)
    }
}

/// The set of identifiers among recorded absences.
pub open spec fn absence_ids_of(absences: Seq<AbsenceView>) -> Set<Seq<char>>
    decreases absences.len(),
{
    if absences.len() == 0 {
        Set::empty()
    } else {
        absence_ids_of(absences.drop_last()).insert(absences.last().intent_id)
    }
}

proof fn lemma_owed_nonneg(intents: Seq<IntentView>, account: Seq<char>)
    ensures
        owed(intents, account) >= 0,
    decreases intents.len(),
{
    if intents.len() > 0 {
        lemma_owed_nonneg(intents.drop_last(), account);
    }
}

proof fn lemma_owed_push(intents: Seq<IntentView>, x: IntentView, account: Seq<char>)
    ensures
        owed(intents.push(x), account) == owed(intents, account) + collateral_toward(x, account),
{
    assert(intents.push(x).drop_last() =~= intents);
}

proof fn lemma_owed_first(intents: Seq<IntentView>, account: Seq<char>)
    requires
        intents.len() > 0,
    ensures
        owed(intents, account) == collateral_toward(intents[0], account) + owed(
            intents.drop_first(),
            account,
        ),
    decreases intents.len(),
{
    if intents.len() == 1 {
        assert(intents.drop_last() =~= Seq::<IntentView>::empty());
        assert(intents.drop_first() =~= Seq::<IntentView>::empty());
        assert(intents.last() == intents[0]);
    } else {
        lemma_owed_first(intents.drop_last(), account);
        assert(intents.drop_last().drop_first() =~= intents.drop_first().drop_last());
        assert(intents.drop_first().last() == intents.last());
    }
}

proof fn lemma_creators_push(intents: Seq<IntentView>, x: IntentView)
    ensures
        creators_of(intents.push(x)) == creators_of(intents).insert(x.creator),
{
    assert(intents.push(x).drop_last() =~= intents);
}

proof fn lemma_creators_first(intents: Seq<IntentView>)
    requires
        intents.len() > 0,
    ensures
        creators_of(intents) == creators_of(intents.drop_first()).insert(intents[0].creator),
    decreases intents.len(),
{
    if intents.len() == 1 {
        assert(intents.drop_last() =~= Seq::<IntentView>::empty());
        assert(intents.drop_first() =~= Seq::<IntentView>::empty());
        assert(intents.last() == intents[0]);
    } else {
        lemma_creators_first(intents.drop_last());
        assert(intents.drop_last().drop_first() =~= intents.drop_first().drop_last());
        assert(intents.drop_first().last() == intents.last());
        assert(creators_of(intents.drop_first().drop_last()).insert(intents[0].creator).insert(
            intents.last().creator,
        ) =~= creators_of(intents.drop_first().drop_last()).insert(intents.last().creator).insert(
            intents[0].creator,
        ));
    }
}

proof fn lemma_ids_push(intents: Seq<IntentView>, x: IntentView)
    ensures
        intent_ids_of(intents.push(x)) == intent_ids_of(intents).insert(x.id),
{
    assert(intents.push(x).drop_last() =~= intents);
}

proof fn lemma_absence_ids_concat(s: Seq<AbsenceView>, u: Seq<AbsenceView>)
    ensures
        absence_ids_of(s + u) == absence_ids_of(s).union(absence_ids_of(u)),
    decreases u.len(),
{
    if u.len() == 0 {
        assert(s + u =~= s);
        assert(absence_ids_of(s).union(Set::empty()) =~= absence_ids_of(s));
    } else {
        lemma_absence_ids_concat(s, u.drop_last());
        assert((s + u).drop_last() =~= s + u.drop_last());
        assert((s + u).last() == u.last());
        assert(absence_ids_of(s).union(absence_ids_of(u.drop_last())).insert(u.last().intent_id)
            =~= absence_ids_of(s).union(absence_ids_of(u.drop_last()).insert(u.last().intent_id)));
    }
}

proof fn lemma_to_absences_ids(intents: Seq<IntentView>, target: Slot)
    ensures
        absence_ids_of(to_absences(intents, target)) == intent_ids_of(intents),
    decreases intents.len(),
{
    if intents.len() == 0 {
        assert(to_absences(intents, target) =~= Seq::<AbsenceView>::empty());
    } else {
        lemma_to_absences_ids(intents.drop_last(), target);
        assert(to_absences(intents, target).drop_last() =~= to_absences(
            intents.drop_last(),
            target,
        ));
        assert(to_absences(intents, target).last().intent_id == intents.last().id);
    }
}

/// An account's balance after a chain of slashes is its prior balance
/// less its total slashed collateral, saturating at zero.
pub proof fn lemma_slash_all_balance(
    balances: Map<Seq<char>, u64>,
    intents: Seq<IntentView>,
    account: Seq<char>,
)
    ensures
        balance_of(slash_all(balances, intents), account) == sat_sub_total(
            balance_of(balances, account),
            owed(intents, account),
        ),
    decreases intents.len(),
{
    if intents.len() > 0 {
        let after_one = slash_one(balances, intents[0]);
        lemma_slash_all_balance(after_one, intents.drop_first(), account);
        lemma_owed_first(intents, account);
        lemma_owed_nonneg(intents.drop_first(), account);
    }
}

proof fn lemma_slash_all_dom(balances: Map<Seq<char>, u64>, intents: Seq<IntentView>)
    ensures
        slash_all(balances, intents).dom() == balances.dom().union(creators_of(intents)),
    decreases intents.len(),
{
    if intents.len() == 0 {
        assert(balances.dom().union(Set::empty()) =~= balances.dom());
    } else {
        let after_one = slash_one(balances, intents[0]);
        lemma_slash_all_dom(after_one, intents.drop_first());
        lemma_creators_first(intents);
        assert(balances.dom().insert(intents[0].creator).union(creators_of(intents.drop_first()))
            =~= balances.dom().union(creators_of(intents.drop_first()).insert(intents[0].creator)));
    }
}

/// Splitting a sweep at an intermediate target splits each account's
/// slashed total: what falls due before `t1` plus what falls due between
/// `t1` and `t2` is what falls due before `t2`.
proof fn lemma_owed_split(a: Seq<IntentView>, t1: Slot, t2: Slot, account: Seq<char>)
    requires
        t1 <= t2,
    ensures
        owed(overdue(a, t2), account) == owed(overdue(a, t1), account) + owed(
            overdue(retained(a, t1), t2),
            account,
        ),
    decreases a.len(),
{
    reveal(Seq::filter);
    if a.len() > 0 {
        let ap = a.drop_last();
        let e = a.last();
        lemma_owed_split(ap, t1, t2, account);
        if e.deadline >= t1 {
            retained(ap, t1).lemma_filter_push(e, |x: IntentView| x.deadline < t2);
            if e.deadline < t2 {
                lemma_owed_push(overdue(ap, t2), e, account);
                lemma_owed_push(overdue(retained(ap, t1), t2), e, account);
            }
        } else {
            if e.deadline < t2 {
                lemma_owed_push(overdue(ap, t2), e, account);
                lemma_owed_push(overdue(ap, t1), e, account);
            }
        }
    }
}

proof fn lemma_creators_split(a: Seq<IntentView>, t1: Slot, t2: Slot)
    requires
        t1 <= t2,
    ensures
        creators_of(overdue(a, t2)) == creators_of(overdue(a, t1)).union(
            creators_of(overdue(retained(a, t1), t2)),
        ),
    decreases a.len(),
{
    reveal(Seq::filter);
    let empty = Set::<Seq<char>>::empty();
    if a.len() == 0 {
        assert(empty.union(empty) =~= empty);
    } else {
        let ap = a.drop_last();
        let e = a.last();
        lemma_creators_split(ap, t1, t2);
        let c1 = creators_of(overdue(ap, t1));
        let c2 = creators_of(overdue(retained(ap, t1), t2));
        if e.deadline >= t1 {
            retained(ap, t1).lemma_filter_push(e, |x: IntentView| x.deadline < t2);
            if e.deadline < t2 {
                lemma_creators_push(overdue(ap, t2), e);
                lemma_creators_push(overdue(retained(ap, t1), t2), e);
                assert(c1.union(c2).insert(e.creator) =~= c1.union(c2.insert(e.creator)));
            }
        } else {
            if e.deadline < t2 {
                lemma_creators_push(overdue(ap, t2), e);
                lemma_creators_push(overdue(ap, t1), e);
                assert(c1.union(c2).insert(e.creator) =~= c1.insert(e.creator).union(c2));
            }
        }
    }
}

proof fn lemma_ids_split(a: Seq<IntentView>, t1: Slot, t2: Slot)
    requires
        t1 <= t2,
    ensures
        intent_ids_of(overdue(a, t2)) == intent_ids_of(overdue(a, t1)).union(
            intent_ids_of(overdue(retained(a, t1), t2)),
        ),
    decreases a.len(),
{
    reveal(Seq::filter);
    let empty = Set::<Seq<char>>::empty();
    if a.len() == 0 {
        assert(empty.union(empty) =~= empty);
    } else {
        let ap = a.drop_last();
        let e = a.last();
        lemma_ids_split(ap, t1, t2);
        let c1 = intent_ids_of(overdue(ap, t1));
        let c2 = intent_ids_of(overdue(retained(ap, t1), t2));
        if e.deadline >= t1 {
            retained(ap, t1).lemma_filter_push(e, |x: IntentView| x.deadline < t2);
            if e.deadline < t2 {
                lemma_ids_push(overdue(ap, t2), e);
                lemma_ids_push(overdue(retained(ap, t1), t2), e);
                assert(c1.union(c2).insert(e.id) =~= c1.union(c2.insert(e.id)));
            }
        } else {
            if e.deadline < t2 {
                lemma_ids_push(overdue(ap, t2), e);
                lemma_ids_push(overdue(ap, t1), e);
                assert(c1.union(c2).insert(e.id) =~= c1.insert(e.id).union(c2));
            }
        }
    }
}

/// Law of exactly-once crystallization: under non-decreasing targets, an
/// active intent is crystallized by the first sweep whose target exceeds
/// its deadline — it appears in that sweep's batch, it appears in no
/// later sweep's batch, and a sweep whose target it has not yet missed
/// leaves it alone.
pub proof fn lemma_exactly_once(v: EngineView, t1: Slot, t2: Slot, i: int)
    requires
        ledger_wf(v.ledger),
        v.slot <= t1 <= t2,
        0 <= i < v.ledger.active.len(),
    ensures
        v.ledger.active[i].deadline < t1 ==> has_absence_id(
            crystallize_batch(v.ledger.active, t1),
            v.ledger.active[i].id,
        ),
        v.ledger.active[i].deadline < t1 ==> !has_absence_id(
            crystallize_batch(sweep(v, t1).ledger.active, t2),
            v.ledger.active[i].id,
        ),
        v.ledger.active[i].deadline < t1 ==> !has_active_id(
            sweep(v, t1).ledger.active,
            v.ledger.active[i].id,
        ),
        v.ledger.active[i].deadline >= t1 ==> !has_absence_id(
            crystallize_batch(v.ledger.active, t1),
            v.ledger.active[i].id,
        ),
{
    let a = v.ledger.active;
    let x = a[i];
    let due1 = |y: IntentView| y.deadline < t1;
    if x.deadline < t1 {
        a.lemma_filter_contains(due1, i);
        let k = choose|k: int| 0 <= k < overdue(a, t1).len() && overdue(a, t1)[k] == x;
        assert(crystallize_batch(a, t1)[k].intent_id == x.id);
        assert(has_absence_id(crystallize_batch(a, t1), x.id));
        let a1 = retained(a, t1);
        let batch2 = crystallize_batch(sweep(v, t1).ledger.active, t2);
        assert forall|j: int| 0 <= j < batch2.len() implies batch2[j].intent_id != x.id by {
            assert(batch2[j].intent_id == overdue(a1, t2)[j].id);
            let m = lemma_filter_element_index(a1, |y: IntentView| y.deadline < t2, j);
            let n = lemma_filter_element_index(a, |y: IntentView| y.deadline >= t1, m);
            if a[n].id == x.id {
                assert(n == i);
            }
        }
        assert(!has_absence_id(batch2, x.id));
        assert forall|j: int| 0 <= j < a1.len() implies a1[j].id != x.id by {
            let n = lemma_filter_element_index(a, |y: IntentView| y.deadline >= t1, j);
            if a[n].id == x.id {
                assert(n == i);
            }
        }
        assert(!has_active_id(a1, x.id));
    } else {
        let batch1 = crystallize_batch(a, t1);
        assert forall|j: int| 0 <= j < batch1.len() implies batch1[j].intent_id != x.id by {
            assert(batch1[j].intent_id == overdue(a, t1)[j].id);
            let m = lemma_filter_element_index(a, due1, j);
            if a[m].id == x.id {
                assert(m == i);
            }
        }
        assert(!has_absence_id(batch1, x.id));
    }
}

/// Companion to exactly-once crystallization: an identifier absent from
/// the active set is absent from any sweep's batch and stays out of the
/// active set, so once crystallized it can never crystallize again,
/// however many sweeps follow.
pub proof fn lemma_never_again(v: EngineView, t: Slot, id: Seq<char>)
    requires
        !has_active_id(v.ledger.active, id),
    ensures
        !has_absence_id(crystallize_batch(v.ledger.active, t), id),
        !has_active_id(sweep(v, t).ledger.active, id),
{
    let a = v.ledger.active;
    let batch = crystallize_batch(a, t);
    assert forall|j: int| 0 <= j < batch.len() implies batch[j].intent_id != id by {
        assert(batch[j].intent_id == overdue(a, t)[j].id);
        let k = lemma_filter_element_index(a, |y: IntentView| y.deadline < t, j);
        assert(a[k] == overdue(a, t)[j]);
    }
    assert(!has_absence_id(batch, id));
    let a1 = retained(a, t);
    assert forall|j: int| 0 <= j < a1.len() implies a1[j].id != id by {
        let k = lemma_filter_element_index(a, |y: IntentView| y.deadline >= t, j);
        assert(a[k] == a1[j]);
    }
    assert(!has_active_id(a1, id));
}

/// Law of gap independence: one sweep across a gap reaches the same slot,
/// the same active set, the same balances, and the same set of
/// crystallized identifiers as two sweeps that stop at an intermediate
/// target on the way. (The slot at which an absence is declared is the
/// sweeping call's target, so that one field of the records reflects
/// which path was taken; the identifiers do not.)
pub proof fn lemma_gap_independence(v: EngineView, t1: Slot, t2: Slot)
    requires
        v.slot <= t1 <= t2,
    ensures
        sweep(sweep(v, t1), t2).slot == sweep(v, t2).slot,
        sweep(sweep(v, t1), t2).ledger.active == sweep(v, t2).ledger.active,
        sweep(sweep(v, t1), t2).ledger.balances == sweep(v, t2).ledger.balances,
        absence_ids_of(sweep(sweep(v, t1), t2).ledger.absences) == absence_ids_of(
            sweep(v, t2).ledger.absences,
        ),
{
    let a = v.ledger.active;
    let b = v.ledger.balances;
    let a1 = retained(a, t1);
    let keep1 = |x: IntentView| x.deadline >= t1;
    let keep2 = |x: IntentView| x.deadline >= t2;
    // active: surviving two sweeps is surviving the later one
    lemma_filter_filter(a, keep1, keep2);
    lemma_filter_pointwise(a, |x: IntentView| keep1(x) && keep2(x), keep2);
    assert(retained(a1, t2) == retained(a, t2));
    // balances: same domain, and the same saturated deduction per account
    let two_step = slash_all(slash_all(b, overdue(a, t1)), overdue(a1, t2));
    let one_step = slash_all(b, overdue(a, t2));
    lemma_slash_all_dom(b, overdue(a, t1));
    lemma_slash_all_dom(slash_all(b, overdue(a, t1)), overdue(a1, t2));
    lemma_slash_all_dom(b, overdue(a, t2));
    lemma_creators_split(a, t1, t2);
    assert(two_step.dom() =~= one_step.dom());
    assert forall|account: Seq<char>| one_step.dom().contains(account) implies two_step[account]
        == one_step[account] by {
        lemma_slash_all_balance(b, overdue(a, t1), account);
        lemma_slash_all_balance(slash_all(b, overdue(a, t1)), overdue(a1, t2), account);
        lemma_slash_all_balance(b, overdue(a, t2), account);
        lemma_owed_split(a, t1, t2, account);
        lemma_owed_nonneg(overdue(a, t1), account);
        lemma_owed_nonneg(overdue(a1, t2), account);
        assert(balance_of(two_step, account) == balance_of(one_step, account));
    }
    assert(two_step =~= one_step);
    // absences: the same identifiers are recorded either way
    let abs0 = v.ledger.absences;
    lemma_absence_ids_concat(abs0, crystallize_batch(a, t1));
    lemma_absence_ids_concat(abs0 + crystallize_batch(a, t1), crystallize_batch(a1, t2));
    lemma_absence_ids_concat(abs0, crystallize_batch(a, t2));
    lemma_to_absences_ids(overdue(a, t1), t1);
    lemma_to_absences_ids(overdue(a1, t2), t2);
    lemma_to_absences_ids(overdue(a, t2), t2);
    lemma_ids_split(a, t1, t2);
    assert(absence_ids_of(abs0).union(intent_ids_of(overdue(a, t1))).union(
        intent_ids_of(overdue(a1, t2)),
    ) =~= absence_ids_of(abs0).union(intent_ids_of(overdue(a, t2))));
}

/// Law of idempotence at a fixed point: when no active intent is already
/// overdue — as after any completed sweep — sweeping to the current slot
/// crystallizes nothing and leaves the state unchanged.
pub proof fn lemma_fixed_point(v: EngineView)
    requires
        forall|i: int| 0 <= i < v.ledger.active.len() ==> v.ledger.active[i].deadline >= v.slot,
    ensures
        sweep(v, v.slot) == v,
        crystallize_batch(v.ledger.active, v.slot) == Seq::<AbsenceView>::empty(),
{
    let a = v.ledger.active;
    let due = |x: IntentView| x.deadline < v.slot;
    a.lemma_all_neg_filter_empty(due);
    lemma_filter_all_true(a, |x: IntentView| x.deadline >= v.slot);
    assert(to_absences(overdue(a, v.slot), v.slot) =~= Seq::<AbsenceView>::empty());
    assert(v.ledger.absences + crystallize_batch(a, v.slot) =~= v.ledger.absences);
    assert(sweep(v, v.slot) =~~= v);
}

/// Law of balance conservation under slashing: a sweep leaves an account
/// with its prior balance less the summed collateral of its own overdue
/// intents, saturating at zero; an account with no overdue intent keeps
/// its balance exactly.
pub proof fn lemma_balance_conservation(v: EngineView, target: Slot, account: Seq<char>)
    requires
        v.slot <= target,
    ensures
        balance_of(sweep(v, target).ledger.balances, account) == sat_sub_total(
            balance_of(v.ledger.balances, account),
            owed(overdue(v.ledger.active, target), account),
        ),
        (forall|j: int|
            0 <= j < overdue(v.ledger.active, target).len() ==> overdue(
                v.ledger.active,
                target,
            )[j].creator != account) ==> balance_of(sweep(v, target).ledger.balances, account)
            == balance_of(v.ledger.balances, account),
{
    lemma_slash_all_balance(v.ledger.balances, overdue(v.ledger.active, target), account);
    let o = overdue(v.ledger.active, target);
    if forall|j: int| 0 <= j < o.len() ==> o[j].creator != account {
        lemma_owed_absent(o, account);
    }
}

/// An account among whose intents none appear owes nothing.
proof fn lemma_owed_absent(intents: Seq<IntentView>, account: Seq<char>)
    requires
        forall|j: int| 0 <= j < intents.len() ==> intents[j].creator != account,
    ensures
        owed(intents, account) == 0,
    decreases intents.len(),
{
    if intents.len() > 0 {
        lemma_owed_absent(intents.drop_last(), account);
    }
}

} // verus!
