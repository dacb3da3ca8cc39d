//! The laws the library promises of subscription, unsubscription and
//! delivery, stated over the registry and arena models and proved once and
//! for all.

use crate::observable::arena_after;
use crate::observable::distinct;
use crate::observable::lemma_arena_after_values;
use crate::observable::occurrences;
use crate::observable::pruned;
use crate::observable::reports_of;
use crate::observable::without;
use crate::observer::ObserverModel;
use crate::observer::ReportModel;
use crate::observer::live;
use crate::observer::observer_at;
use vstd::prelude::*;

verus! {

/// The report one raise produces for a live handle id: the observer's name
/// and its total with the single delta applied.
pub open spec fn delivered_report(
    slots: Seq<Option<ObserverModel>>,
    delta: int,
    id: nat,
) -> ReportModel {
    ReportModel {
        id,
        name: observer_at(slots, id).name,
        value: observer_at(slots, id).value + delta,
    }
}

/// A handle id occurs in a registry exactly when it occurs a positive number
/// of times.
proof fn lemma_occurrences_contains(regs: Seq<nat>, id: nat)
    ensures
        (occurrences(regs, id) == 0) <==> !regs.contains(id),
    decreases regs.len(),
{
    if regs.len() > 0 {
        lemma_occurrences_contains(regs.drop_last(), id);
        if regs.contains(id) {
            let i = choose|i: int| 0 <= i < regs.len() && regs[i] == id;
            if i < regs.len() - 1 {
                assert(regs.drop_last()[i] == id);
                assert(regs.drop_last().contains(id));
            }
        }
        if regs.drop_last().contains(id) {
            let i = choose|i: int|
                0 <= i < regs.drop_last().len() && regs.drop_last()[i] == id;
            assert(regs[i] == id);
            assert(regs.contains(id));
        }
        if regs.last() == id {
            assert(regs[regs.len() - 1] == id);
            assert(regs.contains(id));
        }
    }
}

/// In a registry without duplicates, a subscribed handle id occurs exactly
/// once.
proof fn lemma_occurrences_distinct(regs: Seq<nat>, id: nat)
    requires
        distinct(regs),
        regs.contains(id),
    ensures
        occurrences(regs, id) == 1,
    decreases regs.len(),
{
    let i = choose|i: int| 0 <= i < regs.len() && regs[i] == id;
    assert(regs.len() > 0);
    assert forall|a: int, b: int|
        0 <= a < b < regs.drop_last().len() implies regs.drop_last()[a]
        != regs.drop_last()[b] by {
        assert(regs[a] != regs[b]);
    }
    if regs.last() == id {
        lemma_occurrences_contains(regs.drop_last(), id);
        if regs.drop_last().contains(id) {
            let j = choose|j: int|
                0 <= j < regs.drop_last().len() && regs.drop_last()[j] == id;
            assert(regs[j] == id && regs[regs.len() - 1] == id);
            assert(false);
        }
    } else {
        assert(i < regs.len() - 1);
        assert(regs.drop_last()[i] == id);
        assert(regs.drop_last().contains(id));
        lemma_occurrences_distinct(regs.drop_last(), id);
    }
}

/// Every report a raise produces names a subscribed, live handle id.
proof fn lemma_reports_ids(slots: Seq<Option<ObserverModel>>, regs: Seq<nat>, delta: int)
    ensures
        forall|k: int|
            0 <= k < reports_of(slots, regs, delta).len() ==> regs.contains(
                #[trigger] reports_of(slots, regs, delta)[k].id,
            ) && live(slots, reports_of(slots, regs, delta)[k].id),
    decreases regs.len(),
{
    if regs.len() > 0 {
        lemma_reports_ids(slots, regs.drop_last(), delta);
        lemma_arena_after_values(slots, regs.drop_last(), delta);
        let rest = reports_of(slots, regs.drop_last(), delta);
        let before = arena_after(slots, regs.drop_last(), delta);
        let last = regs.last();
        assert(regs[regs.len() - 1] == last);
        assert(regs.contains(last));
        assert forall|x: nat| regs.drop_last().contains(x) implies regs.contains(x) by {
            let j = choose|j: int|
                0 <= j < regs.drop_last().len() && regs.drop_last()[j] == x;
            assert(regs[j] == x);
        }
        if live(before, last) {
            assert(live(slots, last));
            assert forall|k: int|
                0 <= k < reports_of(slots, regs, delta).len() implies regs.contains(
                #[trigger] reports_of(slots, regs, delta)[k].id,
            ) && live(slots, reports_of(slots, regs, delta)[k].id) by {
                if k < rest.len() {
                    assert(reports_of(slots, regs, delta)[k] == rest[k]);
                } else {
                    assert(reports_of(slots, regs, delta)[k].id == last);
                }
            }
        }
    }
}

/// A pruned registry keeps exactly the subscribed handle ids whose observers
/// are alive.
proof fn lemma_pruned_contains(regs: Seq<nat>, slots: Seq<Option<ObserverModel>>)
    ensures
        forall|id: nat|
            #[trigger] pruned(regs, slots).contains(id) <==> regs.contains(id) && live(slots, id),
    decreases regs.len(),
{
    if regs.len() > 0 {
        lemma_pruned_contains(regs.drop_last(), slots);
        let rest = pruned(regs.drop_last(), slots);
        let last = regs.last();
        assert(regs[regs.len() - 1] == last);
        assert forall|x: nat| regs.drop_last().contains(x) implies regs.contains(x) by {
            let j = choose|j: int|
                0 <= j < regs.drop_last().len() && regs.drop_last()[j] == x;
            assert(regs[j] == x);
        }
        assert forall|x: nat| regs.contains(x) && x != last implies regs.drop_last().contains(
            x,
        ) by {
            let j = choose|j: int| 0 <= j < regs.len() && regs[j] == x;
            assert(j < regs.len() - 1);
            assert(regs.drop_last()[j] == x);
        }
        assert forall|id: nat| #[trigger] pruned(regs, slots).contains(id) <==> regs.contains(id)
            && live(slots, id) by {
            if live(slots, last) {
                assert(pruned(regs, slots) == rest.push(last));
                assert forall|x: nat| rest.push(last).contains(x) implies rest.contains(x) || x
                    == last by {
                    let j = choose|j: int|
                        0 <= j < rest.push(last).len() && rest.push(last)[j] == x;
                    if j < rest.len() {
                        assert(rest[j] == x);
                    }
                }
                if rest.contains(id) || id == last {
                    assert(rest.push(last)[rest.len() as int] == last);
                    assert forall|x: nat| rest.contains(x) implies rest.push(last).contains(
                        x,
                    ) by {
                        let j = choose|j: int| 0 <= j < rest.len() && rest[j] == x;
                        assert(rest.push(last)[j] == x);
                    }
                }
            } else {
                assert(pruned(regs, slots) == rest);
            }
        }
    }
}

/// Law: one raise on a duplicate-free registry delivers the payload exactly
/// once to every still-live subscribed observer, in subscription order: each
/// such observer's total grows by exactly one delta, its name is untouched,
/// and the reports are precisely the live registry entries, in registry
/// order, each with the single delta applied.
pub proof fn lemma_raise_delivers_once(
    slots: Seq<Option<ObserverModel>>,
    regs: Seq<nat>,
    delta: int,
)
    requires
        distinct(regs),
    ensures
        forall|id: nat|
            regs.contains(id) && live(slots, id) ==> #[trigger] observer_at(
                arena_after(slots, regs, delta),
                id,
            ) == (ObserverModel {
                name: observer_at(slots, id).name,
                value: observer_at(slots, id).value + delta,
            }),
        reports_of(slots, regs, delta) == pruned(regs, slots).map_values(
            |id: nat| delivered_report(slots, delta, id),
        ),
    decreases regs.len(),
{
    lemma_arena_after_values(slots, regs, delta);
    assert forall|id: nat|
        regs.contains(id) && live(slots, id) implies #[trigger] observer_at(
        arena_after(slots, regs, delta),
        id,
    ) == (ObserverModel {
        name: observer_at(slots, id).name,
        value: observer_at(slots, id).value + delta,
    }) by {
        lemma_occurrences_distinct(regs, id);
    }
    let f = |id: nat| delivered_report(slots, delta, id);
    if regs.len() > 0 {
        assert forall|a: int, b: int|
            0 <= a < b < regs.drop_last().len() implies regs.drop_last()[a]
            != regs.drop_last()[b] by {
            assert(regs[a] != regs[b]);
        }
        lemma_raise_delivers_once(slots, regs.drop_last(), delta);
        lemma_arena_after_values(slots, regs.drop_last(), delta);
        let last = regs.last();
        let before = arena_after(slots, regs.drop_last(), delta);
        if live(slots, last) {
            assert(live(before, last));
            lemma_occurrences_contains(regs.drop_last(), last);
            if regs.drop_last().contains(last) {
                let j = choose|j: int|
                    0 <= j < regs.drop_last().len() && regs.drop_last()[j] == last;
                assert(regs[j] == last && regs[regs.len() - 1] == last);
                assert(false);
            }
            assert(occurrences(regs.drop_last(), last) == 0);
            assert(observer_at(before, last) == (ObserverModel {
                name: observer_at(slots, last).name,
                value: observer_at(slots, last).value + 0 * delta,
            }));
            assert(pruned(regs, slots) == pruned(regs.drop_last(), slots).push(last));
            assert(pruned(regs, slots).map_values(f) =~= pruned(regs.drop_last(), slots)
                .map_values(f).push(f(last)));
            assert(reports_of(slots, regs, delta) == reports_of(slots, regs.drop_last(), delta)
                .push(f(last)));
        } else {
            assert(!live(before, last));
            assert(pruned(regs, slots) == pruned(regs.drop_last(), slots));
            assert(reports_of(slots, regs, delta) == reports_of(slots, regs.drop_last(), delta));
        }
    } else {
        assert(pruned(regs, slots).map_values(f) =~= Seq::<ReportModel>::empty());
    }
}

/// Law: unsubscribing a handle removes exactly the registry entries with its
/// identity — every other entry keeps its multiplicity — and a raise on the
/// resulting registry leaves the unsubscribed observer's slot untouched and
/// produces no report naming it.
pub proof fn lemma_unsubscribe_then_raise(
    slots: Seq<Option<ObserverModel>>,
    regs: Seq<nat>,
    delta: int,
    id: nat,
)
    ensures
        forall|id2: nat|
            #[trigger] occurrences(without(regs, id), id2) == if id2 == id {
                0nat
            } else {
                occurrences(regs, id2)
            },
        id < slots.len() ==> arena_after(slots, without(regs, id), delta)[id as int] == slots[
            id as int
        ],
        forall|k: int|
            0 <= k < reports_of(slots, without(regs, id), delta).len() ==> #[trigger] reports_of(
                slots,
                without(regs, id),
                delta,
            )[k].id != id,
{
    lemma_without_occurrences(regs, id);
    lemma_occurrences_contains(without(regs, id), id);
    assert(!without(regs, id).contains(id));
    lemma_arena_after_values(slots, without(regs, id), delta);
    if id < slots.len() && live(slots, id) {
        assert(observer_at(arena_after(slots, without(regs, id), delta), id) == (ObserverModel {
            name: observer_at(slots, id).name,
            value: observer_at(slots, id).value + 0 * delta,
        }));
        assert(live(arena_after(slots, without(regs, id), delta), id));
        assert(arena_after(slots, without(regs, id), delta)[id as int] is Some);
        assert(arena_after(slots, without(regs, id), delta)[id as int]->Some_0 == observer_at(
            slots,
            id,
        ));
        assert(slots[id as int]->Some_0 == observer_at(slots, id));
    }
    lemma_reports_ids(slots, without(regs, id), delta);
}

/// Unsubscribing keeps every other handle id's multiplicity and leaves none
/// of the unsubscribed one.
proof fn lemma_without_occurrences(regs: Seq<nat>, id: nat)
    ensures
        forall|id2: nat|
            #[trigger] occurrences(without(regs, id), id2) == if id2 == id {
                0nat
            } else {
                occurrences(regs, id2)
            },
    decreases regs.len(),
{
    if regs.len() > 0 {
        lemma_without_occurrences(regs.drop_last(), id);
        let rest = without(regs.drop_last(), id);
        let last = regs.last();
        if last != id {
            assert(without(regs, id) == rest.push(last));
            assert forall|id2: nat| #[trigger] occurrences(without(regs, id), id2) == (if id2 == id {
                0nat
            } else {
                occurrences(regs, id2)
            }) by {
                assert(rest.push(last).drop_last() =~= rest);
                assert(occurrences(rest.push(last), id2) == occurrences(rest, id2) + if last == id2 {
                    1nat
                } else {
                    0nat
                });
            }
        }
    }
}

/// Law: an observer whose owning slot was released before the raise is
/// pruned and skipped: it is absent from the registry afterwards, no report
/// names it, and its slot is untouched.
pub proof fn lemma_dropped_observer_pruned(
    slots: Seq<Option<ObserverModel>>,
    regs: Seq<nat>,
    delta: int,
    id: nat,
)
    requires
        !live(slots, id),
    ensures
        !pruned(regs, slots).contains(id),
        forall|k: int|
            0 <= k < reports_of(slots, regs, delta).len() ==> #[trigger] reports_of(
                slots,
                regs,
                delta,
            )[k].id != id,
        id < slots.len() ==> arena_after(slots, regs, delta)[id as int] == slots[id as int],
{
    lemma_pruned_contains(regs, slots);
    lemma_reports_ids(slots, regs, delta);
    lemma_arena_after_values(slots, regs, delta);
}

/// Law: unsubscribing is idempotent: a second unsubscribe of the same handle
/// is safe and changes nothing.
pub proof fn lemma_unsubscribe_idempotent(regs: Seq<nat>, id: nat)
    ensures
        without(without(regs, id), id) == without(regs, id),
    decreases regs.len(),
{
    if regs.len() > 0 {
        lemma_unsubscribe_idempotent(regs.drop_last(), id);
        let rest = without(regs.drop_last(), id);
        let last = regs.last();
        if last != id {
            assert(without(regs, id) == rest.push(last));
            assert(rest.push(last).drop_last() =~= rest);
            assert(without(rest.push(last), id) == without(rest, id).push(last));
        }
    }
}

} // verus!
