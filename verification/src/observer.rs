//! Observers, their owning arena, and the non-owning handles through which an
//! observable sees them.
//!
//! Ownership is split exactly as the pattern demands: the arena is the one
//! strong owner of every observer, while a [`Handle`] is a revocable,
//! non-owning token. Releasing an arena slot revokes every copy of its handle
//! at once, so a subscription can never keep an observer alive.

use crate::event::TestEventArgs;
use vstd::prelude::*;

verus! {

/// Mathematical model of one observer: its display name and its accumulated
/// total, as unbounded values.
pub ghost struct ObserverModel {
    pub name: Seq<char>,
    pub value: int,
}

/// An observer: a named unit of state that reacts to an event by
/// accumulating the event's delta into its running total.
pub struct TestObserver {
    name: String,
    value: i32,
}

impl View for TestObserver {
    type V = ObserverModel;

    closed spec fn view(&self) -> ObserverModel {
        ObserverModel { name: self.name@, value: self.value as int }
    }
}

impl TestObserver {
    /// A fresh observer carries the given name and zero accumulated state.
    pub fn new(name: String) -> (r: Self)
        ensures
            r@.name == name@,
            r@.value == 0,
    {
        TestObserver { name, value: 0 }
    }

    /// React to one event: accumulate its delta into the running total.
    pub fn update(&mut self, args: &TestEventArgs)
        requires
            i32::MIN <= old(self)@.value + args.value <= i32::MAX,
        ensures
            final(self)@.name == old(self)@.name,
            final(self)@.value == old(self)@.value + args.value,
    {
        self.value = self.value + args.value;
    }

    /// The accumulated total.
    pub fn value(&self) -> (r: i32)
        ensures
            r as int == self@.value,
    {
        self.value
    }

    /// The display name.
    pub fn name(&self) -> (r: &String)
        ensures
            r@ == self@.name,
    {
        &self.name
    }
}

/// A non-owning, revocable handle to one arena slot. Copies of a handle share
/// its identity: two handles denote the same subscription exactly when their
/// ids are equal.
#[derive(Clone, Copy, PartialEq, Eq, Structural, Debug)]
pub struct Handle {
    pub id: usize,
}

/// The one strong owner of every observer. A slot holds its observer until
/// the owner releases it; after a release the slot stays `None` forever, so
/// every handle with that id is dead from then on.
pub struct ObserverArena {
    slots: Vec<Option<TestObserver>>,
}

impl View for ObserverArena {
    type V = Seq<Option<ObserverModel>>;

    closed spec fn view(&self) -> Seq<Option<ObserverModel>> {
        self.slots@.map_values(
            |s: Option<TestObserver>|
                match s {
                    Some(o) => Some(o@),
                    None => None,
                },
        )
    }
}

/// A handle id is live when its arena slot still holds an observer.
pub open spec fn live(slots: Seq<Option<ObserverModel>>, id: nat) -> bool {
    id < slots.len() && slots[id as int] is Some
}

/// The observer behind a live handle id.
pub open spec fn observer_at(slots: Seq<Option<ObserverModel>>, id: nat) -> ObserverModel
    recommends
        live(slots, id),
{
    slots[id as int]->Some_0
}

/// One delivery step: if the handle id is live, its observer's total grows by
/// the delta; a dead id leaves the arena unchanged.
pub open spec fn deliver_one(
    slots: Seq<Option<ObserverModel>>,
    id: nat,
    delta: int,
) -> Seq<Option<ObserverModel>> {
    if live(slots, id) {
        slots.update(
            id as int,
            Some(
                ObserverModel {
                    name: observer_at(slots, id).name,
                    value: observer_at(slots, id).value + delta,
                },
            ),
        )
    } else {
        slots
    }
}

impl ObserverArena {
    /// An arena with no observers.
    pub fn new() -> (r: Self)
        ensures
            r@ == Seq::<Option<ObserverModel>>::empty(),
    {
        let r = ObserverArena { slots: Vec::new() };
        proof {
            assert(r@ =~= Seq::<Option<ObserverModel>>::empty());
        }
        r
    }

    /// Every owned observer's accumulated total is a machine integer.
    pub proof fn lemma_values_in_range(&self)
        ensures
            forall|id: nat|
                live(self@, id) ==> i32::MIN <= #[trigger] observer_at(self@, id).value
                    <= i32::MAX,
    {
        assert forall|id: nat| live(self@, id) implies i32::MIN <= #[trigger] observer_at(
            self@,
            id,
        ).value <= i32::MAX by {
            assert(self@[id as int] == match self.slots@[id as int] {
                Some(o) => Some(o@),
                None => None,
            });
        }
    }

    /// Take strong ownership of an observer; the returned handle is
    /// non-owning and stays valid until the slot is released.
    pub fn insert(&mut self, observer: TestObserver) -> (h: Handle)
        ensures
            final(self)@ == old(self)@.push(Some(observer@)),
            h.id == old(self)@.len(),
    {
        let h = Handle { id: self.slots.len() };
        self.slots.push(Some(observer));
        proof {
            assert(self@ =~= old(self)@.push(Some(observer@)));
        }
        h
    }

    /// Drop the strong ownership of the observer behind `h`: its slot becomes
    /// empty and every handle with that id is dead from now on. Releasing an
    /// already-dead or out-of-range handle changes nothing.
    pub fn release(&mut self, h: Handle)
        ensures
            h.id < old(self)@.len() ==> final(self)@ == old(self)@.update(h.id as int, None),
            h.id >= old(self)@.len() ==> final(self)@ == old(self)@,
    {
        if h.id < self.slots.len() {
            let slot = &mut self.slots[h.id];
            *slot = None;
            proof {
                assert(self@ =~= old(self)@.update(h.id as int, None));
            }
        }
    }

    /// Whether the observer behind `h` is still owned.
    pub fn is_live(&self, h: Handle) -> (b: bool)
        ensures
            b == live(self@, h.id as nat),
    {
        h.id < self.slots.len() && self.slots[h.id].is_some()
    }

    /// Deliver one event to the observer behind `h`, if it is still alive,
    /// and report the delivery; a dead handle changes nothing and yields no
    /// report.
    pub fn deliver(&mut self, h: Handle, args: &TestEventArgs) -> (r: Option<Report>)
        requires
            live(old(self)@, h.id as nat) ==> i32::MIN <= observer_at(old(self)@, h.id as nat).value
                + args.value <= i32::MAX,
        ensures
            final(self)@ == deliver_one(old(self)@, h.id as nat, args.value as int),
            r is Some <==> live(old(self)@, h.id as nat),
            live(old(self)@, h.id as nat) ==> r->Some_0@ == (ReportModel {
                id: h.id as nat,
                name: observer_at(old(self)@, h.id as nat).name,
                value: observer_at(old(self)@, h.id as nat).value + args.value,
            }),
    {
        if h.id < self.slots.len() {
            let slot = &mut self.slots[h.id];
            match slot {
                Some(observer) => {
                    observer.update(args);
                    let report = Report {
                        id: h.id,
                        name: observer.name().clone(),
                        value: observer.value(),
                    };
                    proof {
                        assert(self@ =~= deliver_one(old(self)@, h.id as nat, args.value as int));
                    }
                    Some(report)
                },
                None => {
                    proof {
                        assert(self@ =~= deliver_one(old(self)@, h.id as nat, args.value as int));
                    }
                    None
                },
            }
        } else {
            proof {
                assert(self@ =~= deliver_one(old(self)@, h.id as nat, args.value as int));
            }
            None
        }
    }

    /// The accumulated total of the observer behind `h`, or `None` once the
    /// handle is dead.
    pub fn value_of(&self, h: Handle) -> (r: Option<i32>)
        ensures
            r is Some <==> live(self@, h.id as nat),
            live(self@, h.id as nat) ==> r->Some_0 as int == observer_at(self@, h.id as nat).value,
    {
        if h.id < self.slots.len() {
            match &self.slots[h.id] {
                Some(observer) => Some(observer.value()),
                None => None,
            }
        } else {
            None
        }
    }

    /// The name of the observer behind `h`, or `None` once the handle is
    /// dead.
    pub fn name_of(&self, h: Handle) -> (r: Option<&String>)
        ensures
            r is Some <==> live(self@, h.id as nat),
            live(self@, h.id as nat) ==> r->Some_0@ == observer_at(self@, h.id as nat).name,
    {
        if h.id < self.slots.len() {
            match &self.slots[h.id] {
                Some(observer) => Some(observer.name()),
                None => None,
            }
        } else {
            None
        }
    }
}

/// Mathematical model of one delivery report.
pub ghost struct ReportModel {
    pub id: nat,
    pub name: Seq<char>,
    pub value: int,
}

/// One successful delivery: which handle received the event, the observer's
/// name, and its new accumulated total. The textual side effect of a raise is
/// produced from these by the caller.
pub struct Report {
    pub id: usize,
    pub name: String,
    pub value: i32,
}

impl View for Report {
    type V = ReportModel;

    closed spec fn view(&self) -> ReportModel {
        ReportModel { id: self.id as nat, name: self.name@, value: self.value as int }
    }
}

} // verus!
