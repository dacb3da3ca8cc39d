//! The observable: a registry of non-owning handles, with subscription,
//! unsubscription and event delivery.

use crate::event::TestEventArgs;
use crate::observer::Handle;
use crate::observer::ObserverArena;
use crate::observer::ObserverModel;
use crate::observer::Report;
use crate::observer::ReportModel;
use crate::observer::deliver_one;
use crate::observer::live;
use crate::observer::observer_at;
use vstd::prelude::*;

verus! {

/// How many registry entries carry the given handle id.
pub open spec fn occurrences(regs: Seq<nat>, id: nat) -> nat
    decreases regs.len(),
{
    if regs.len() == 0 {
        0
    } else {
        occurrences(regs.drop_last(), id) + if regs.last() == id {
            1nat
        } else {
            0nat
        }
    }
}

/// The arena after one raise has walked the whole registry: each entry whose
/// observer is alive receives one delivery, in registry order.
pub open spec fn arena_after(
    slots: Seq<Option<ObserverModel>>,
    regs: Seq<nat>,
    delta: int,
) -> Seq<Option<ObserverModel>>
    decreases regs.len(),
{
    if regs.len() == 0 {
        slots
    } else {
        deliver_one(arena_after(slots, regs.drop_last(), delta), regs.last(), delta)
    }
}

/// The reports a raise produces: one per live registry entry, in registry
/// order, each carrying the observer's name and its total after that
/// delivery.
pub open spec fn reports_of(
    slots: Seq<Option<ObserverModel>>,
    regs: Seq<nat>,
    delta: int,
) -> Seq<ReportModel>
    decreases regs.len(),
{
    if regs.len() == 0 {
        Seq::empty()
    } else {
        let before = arena_after(slots, regs.drop_last(), delta);
        let rest = reports_of(slots, regs.drop_last(), delta);
        let id = regs.last();
        if live(before, id) {
            rest.push(
                ReportModel {
                    id,
                    name: observer_at(before, id).name,
                    value: observer_at(before, id).value + delta,
                },
            )
        } else {
            rest
        }
    }
}

/// The registry after a raise: the entries whose observers are alive, in
/// their old order; dead entries are pruned.
pub open spec fn pruned(regs: Seq<nat>, slots: Seq<Option<ObserverModel>>) -> Seq<nat>
    decreases regs.len(),
{
    if regs.len() == 0 {
        Seq::empty()
    } else {
        let rest = pruned(regs.drop_last(), slots);
        if live(slots, regs.last()) {
            rest.push(regs.last())
        } else {
            rest
        }
    }
}

/// The registry after unsubscribing a handle id: every entry with that
/// identity is removed, the rest keep their order.
pub open spec fn without(regs: Seq<nat>, id: nat) -> Seq<nat>
    decreases regs.len(),
{
    if regs.len() == 0 {
        Seq::empty()
    } else {
        let rest = without(regs.drop_last(), id);
        if regs.last() == id {
            rest
        } else {
            rest.push(regs.last())
        }
    }
}

/// No two registry entries share a handle id.
pub open spec fn distinct(regs: Seq<nat>) -> bool {
    forall|i: int, j: int| 0 <= i < j < regs.len() ==> regs[i] != regs[j]
}

/// Every delivery a raise will make stays within `i32`: for each registry
/// entry whose observer is alive, the observer's total plus all the deltas it
/// will receive during the raise fits.
pub open spec fn raise_fits(slots: Seq<Option<ObserverModel>>, regs: Seq<nat>, delta: int) -> bool {
    forall|k: int|
        0 <= k < regs.len() && live(slots, #[trigger] regs[k]) ==> i32::MIN <= observer_at(
            slots,
            regs[k],
        ).value + occurrences(regs, regs[k]) * delta <= i32::MAX
}

/// Walking a registry changes no slot's length or liveness, and each live
/// observer ends with its old total plus one delta per registry entry that
/// names it; its name and every dead slot are untouched.
pub proof fn lemma_arena_after_values(slots: Seq<Option<ObserverModel>>, regs: Seq<nat>, delta: int)
    ensures
        arena_after(slots, regs, delta).len() == slots.len(),
        forall|id: nat| #[trigger] live(arena_after(slots, regs, delta), id) == live(slots, id),
        forall|id: nat|
            live(slots, id) ==> #[trigger] observer_at(arena_after(slots, regs, delta), id)
                == (ObserverModel {
                name: observer_at(slots, id).name,
                value: observer_at(slots, id).value + occurrences(regs, id) * delta,
            }),
        forall|id: nat|
            id < slots.len() && !live(slots, id) ==> #[trigger] arena_after(slots, regs, delta)[id as int]
                == slots[id as int],
    decreases regs.len(),
{
    if regs.len() > 0 {
        lemma_arena_after_values(slots, regs.drop_last(), delta);
        let pre = arena_after(slots, regs.drop_last(), delta);
        let last = regs.last();
        let post = arena_after(slots, regs, delta);
        assert(post == deliver_one(pre, last, delta));
        assert forall|id: nat| #[trigger] live(post, id) == live(slots, id) by {
            assert(live(pre, id) == live(slots, id));
            assert(live(pre, last) == live(slots, last));
        }
        assert forall|id: nat|
            live(slots, id) implies #[trigger] observer_at(post, id) == (ObserverModel {
            name: observer_at(slots, id).name,
            value: observer_at(slots, id).value + occurrences(regs, id) * delta,
        }) by {
            assert(live(pre, id) == live(slots, id));
            assert(observer_at(pre, id) == (ObserverModel {
                name: observer_at(slots, id).name,
                value: observer_at(slots, id).value + occurrences(regs.drop_last(), id) * delta,
            }));
            if id == last {
                assert(live(pre, last));
                assert(observer_at(post, id) == (ObserverModel {
                    name: observer_at(pre, last).name,
                    value: observer_at(pre, last).value + delta,
                }));
                assert(occurrences(regs, id) == occurrences(regs.drop_last(), id) + 1);
                let ck = occurrences(regs.drop_last(), id) as int;
                assert((ck + 1) * delta == ck * delta + delta) by (nonlinear_arith);
            } else {
                assert(occurrences(regs, id) == occurrences(regs.drop_last(), id));
                if live(pre, last) {
                    assert(post[id as int] == pre[id as int]);
                } else {
                    assert(post == pre);
                }
                assert(observer_at(post, id) == observer_at(pre, id));
            }
        }
        assert forall|id: nat|
            id < slots.len() && !live(slots, id) implies #[trigger] post[id as int]
            == slots[id as int] by {
            assert(live(pre, id) == live(slots, id));
            assert(arena_after(slots, regs.drop_last(), delta)[id as int] == slots[id as int]);
            if live(pre, last) {
                assert(last != id);
                assert(post[id as int] == pre[id as int]);
            } else {
                assert(post == pre);
            }
        }
    } else {
        assert forall|id: nat|
            live(slots, id) implies #[trigger] observer_at(arena_after(slots, regs, delta), id)
            == (ObserverModel {
            name: observer_at(slots, id).name,
            value: observer_at(slots, id).value + occurrences(regs, id) * delta,
        }) by {
            assert(occurrences(regs, id) == 0);
            assert(arena_after(slots, regs, delta) == slots);
        }
    }
}

/// A prefix of the registry names a handle id at most as often as the whole
/// registry does.
proof fn lemma_occurrences_prefix(regs: Seq<nat>, id: nat, j: int)
    requires
        0 <= j <= regs.len(),
    ensures
        occurrences(regs.take(j), id) <= occurrences(regs, id),
    decreases regs.len() - j,
{
    if j == regs.len() {
        assert(regs.take(j) =~= regs);
    } else {
        lemma_occurrences_prefix(regs, id, j + 1);
        assert(regs.take(j + 1).drop_last() =~= regs.take(j));
        assert(occurrences(regs.take(j), id) <= occurrences(regs.take(j + 1), id));
    }
}

/// Strictly before position `k` of the registry, the id at `k` occurs
/// strictly fewer times than in the whole registry.
proof fn lemma_occurrences_take_below(regs: Seq<nat>, id: nat, k: int)
    requires
        0 <= k < regs.len(),
        regs[k] == id,
    ensures
        occurrences(regs.take(k), id) + 1 <= occurrences(regs, id),
{
    assert(regs.take(k + 1).drop_last() =~= regs.take(k));
    assert(regs.take(k + 1).last() == id);
    assert(occurrences(regs.take(k + 1), id) == occurrences(regs.take(k), id) + 1);
    lemma_occurrences_prefix(regs, id, k + 1);
}

/// If the whole raise fits in `i32`, so does the single delivery at
/// position `k`, made to the arena as the walk has left it so far.
proof fn lemma_step_fits(slots: Seq<Option<ObserverModel>>, regs: Seq<nat>, delta: int, k: int)
    requires
        0 <= k < regs.len(),
        raise_fits(slots, regs, delta),
        live(slots, regs[k]),
        i32::MIN <= observer_at(slots, regs[k]).value <= i32::MAX,
    ensures
        i32::MIN <= observer_at(arena_after(slots, regs.take(k), delta), regs[k]).value + delta
            <= i32::MAX,
{
    let id = regs[k];
    lemma_arena_after_values(slots, regs.take(k), delta);
    lemma_occurrences_take_below(regs, id, k);
    let v0 = observer_at(slots, id).value;
    let ck = occurrences(regs.take(k), id) as int;
    let c = occurrences(regs, id) as int;
    assert(i32::MIN <= v0 + c * delta <= i32::MAX);
    assert(i32::MIN <= v0 + ck * delta + delta <= i32::MAX) by (nonlinear_arith)
        requires
            0 <= ck,
            ck + 1 <= c,
            i32::MIN <= v0 + c * delta <= i32::MAX,
            i32::MIN <= v0 <= i32::MAX,
    ;
}

/// An observable holds an ordered registry of non-owning handles. It never
/// owns an observer: delivery consults the arena, and entries whose
/// observers are gone are pruned.
pub struct TestObservable {
    observers: Vec<Handle>,
}

impl View for TestObservable {
    type V = Seq<nat>;

    closed spec fn view(&self) -> Seq<nat> {
        self.observers@.map_values(|h: Handle| h.id as nat)
    }
}

impl TestObservable {
    /// An observable with an empty registry.
    pub fn new() -> (r: Self)
        ensures
            r@ == Seq::<nat>::empty(),
    {
        let r = TestObservable { observers: Vec::new() };
        proof {
            assert(r@ =~= Seq::<nat>::empty());
        }
        r
    }

    /// Register a non-owning handle; the same handle is returned to the
    /// caller for later unsubscription. Always succeeds.
    pub fn subscribe(&mut self, observer: Handle) -> (r: Handle)
        ensures
            final(self)@ == old(self)@.push(observer.id as nat),
            r == observer,
    {
        self.observers.push(observer);
        proof {
            assert(self@ =~= old(self)@.push(observer.id as nat));
        }
        observer
    }

    /// Remove every registry entry whose identity is that of `observer`; the
    /// rest keep their order. A no-op if no entry matches.
    pub fn unsubscribe(&mut self, observer: Handle)
        ensures
            final(self)@ == without(old(self)@, observer.id as nat),
    {
        let ghost regs = self@;
        let mut kept: Vec<Handle> = Vec::new();
        let n = self.observers.len();
        let mut k: usize = 0;
        while k < n
            invariant
                n == self.observers.len(),
                k <= n,
                regs == self@,
                kept@.map_values(|h: Handle| h.id as nat) == without(
                    regs.take(k as int),
                    observer.id as nat,
                ),
            decreases n - k,
        {
            let h = self.observers[k];
            proof {
                assert(regs.take(k as int + 1).drop_last() =~= regs.take(k as int));
                assert(regs.take(k as int + 1).last() == h.id as nat);
            }
            if h.id != observer.id {
                kept.push(h);
                proof {
                    assert(kept@.map_values(|h2: Handle| h2.id as nat) =~= without(
                        regs.take(k as int),
                        observer.id as nat,
                    ).push(h.id as nat));
                }
            }
            k += 1;
        }
        proof {
            assert(regs.take(n as int) =~= regs);
        }
        self.observers = kept;
    }

    /// Deliver one event to every registry entry whose observer is still
    /// alive, in registry (insertion) order, and pick up each delivery's
    /// report; entries whose observers are gone are pruned from the registry
    /// and receive nothing.
    ///
    /// Liveness is the explicit ownership of the arena slot — an observer is
    /// gone exactly when its owner has released it — never a reference-count
    /// heuristic, so delivery cannot extend an observer's lifetime.
    pub fn raise(&mut self, arena: &mut ObserverArena, args: &TestEventArgs) -> (reports: Vec<
        Report,
    >)
        requires
            raise_fits(old(arena)@, old(self)@, args.value as int),
        ensures
            final(arena)@ == arena_after(old(arena)@, old(self)@, args.value as int),
            final(self)@ == pruned(old(self)@, old(arena)@),
            reports@.map_values(|r: Report| r@) == reports_of(
                old(arena)@,
                old(self)@,
                args.value as int,
            ),
    {
        let ghost slots0 = arena@;
        let ghost regs = self@;
        let ghost delta = args.value as int;
        proof {
            arena.lemma_values_in_range();
        }
        let mut kept: Vec<Handle> = Vec::new();
        let mut reports: Vec<Report> = Vec::new();
        let n = self.observers.len();
        let mut k: usize = 0;
        while k < n
            invariant
                n == self.observers.len(),
                k <= n,
                regs == self@,
                slots0 == old(arena)@,
                delta == args.value as int,
                raise_fits(slots0, regs, delta),
                forall|id: nat|
                    live(slots0, id) ==> i32::MIN <= #[trigger] observer_at(slots0, id).value
                        <= i32::MAX,
                arena@ == arena_after(slots0, regs.take(k as int), delta),
                kept@.map_values(|h: Handle| h.id as nat) == pruned(regs.take(k as int), slots0),
                reports@.map_values(|r: Report| r@) == reports_of(
                    slots0,
                    regs.take(k as int),
                    delta,
                ),
            decreases n - k,
        {
            let h = self.observers[k];
            let ghost id = h.id as nat;
            let ghost cur = arena@;
            proof {
                assert(regs[k as int] == id);
                lemma_arena_after_values(slots0, regs.take(k as int), delta);
                if live(slots0, id) {
                    lemma_step_fits(slots0, regs, delta, k as int);
                }
            }
            let delivered = arena.deliver(h, args);
            proof {
                assert(regs.take(k as int + 1).drop_last() =~= regs.take(k as int));
                assert(regs.take(k as int + 1).last() == id);
                assert(arena@ == arena_after(slots0, regs.take(k as int + 1), delta));
            }
            let ghost kept_ids = kept@.map_values(|h2: Handle| h2.id as nat);
            let ghost report_models = reports@.map_values(|r2: Report| r2@);
            match delivered {
                Some(report) => {
                    proof {
                        assert(live(cur, id));
                        assert(live(slots0, id));
                    }
                    kept.push(h);
                    reports.push(report);
                    proof {
                        assert(kept@.map_values(|h2: Handle| h2.id as nat) =~= kept_ids.push(id));
                        assert(reports@.map_values(|r2: Report| r2@) =~= report_models.push(
                            report@,
                        ));
                        assert(report@ == (ReportModel {
                            id,
                            name: observer_at(cur, id).name,
                            value: observer_at(cur, id).value + delta,
                        }));
                    }
                },
                None => {
                    proof {
                        assert(!live(cur, id));
                        assert(!live(slots0, id));
                    }
                },
            }
            k += 1;
        }
        proof {
            assert(regs.take(n as int) =~= regs);
        }
        self.observers = kept;
        reports
    }

    /// How many registry entries there are.
    pub fn subscriber_count(&self) -> (n: usize)
        ensures
            n == self@.len(),
    {
        self.observers.len()
    }

    /// Whether some registry entry has the identity of `h`.
    pub fn is_subscribed(&self, h: Handle) -> (b: bool)
        ensures
            b == self@.contains(h.id as nat),
    {
        let n = self.observers.len();
        let mut k: usize = 0;
        while k < n
            invariant
                n == self.observers.len(),
                k <= n,
                forall|j: int| 0 <= j < k ==> self@[j] != h.id as nat,
            decreases n - k,
        {
            if self.observers[k].id == h.id {
                proof {
                    assert(self@[k as int] == h.id as nat);
                }
                return true;
            }
            k += 1;
        }
        false
    }
}

} // verus!
