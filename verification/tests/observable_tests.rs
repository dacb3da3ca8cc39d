use observers::event::TestEventArgs;
use observers::observable::TestObservable;
use observers::observer::Handle;
use observers::observer::ObserverArena;
use observers::observer::TestObserver;

fn subscribe_three(arena: &mut ObserverArena, observable: &mut TestObservable) -> (
    Handle,
    Handle,
    Handle,
) {
    let h1 = arena.insert(TestObserver::new("Observer 1".to_string()));
    let h2 = arena.insert(TestObserver::new("Observer 2".to_string()));
    let h3 = arena.insert(TestObserver::new("Observer 3".to_string()));
    let w1 = observable.subscribe(h1);
    let w2 = observable.subscribe(h2);
    let w3 = observable.subscribe(h3);
    (w1, w2, w3)
}

#[test]
fn three_observers_each_receive_once_in_order() {
    let mut arena = ObserverArena::new();
    let mut observable = TestObservable::new();
    let (h1, h2, h3) = subscribe_three(&mut arena, &mut observable);

    let reports = observable.raise(&mut arena, &TestEventArgs::new(1));

    assert_eq!(arena.value_of(h1), Some(1));
    assert_eq!(arena.value_of(h2), Some(1));
    assert_eq!(arena.value_of(h3), Some(1));
    assert_eq!(reports.len(), 3);
    assert_eq!(reports[0].name, "Observer 1");
    assert_eq!(reports[1].name, "Observer 2");
    assert_eq!(reports[2].name, "Observer 3");
    assert_eq!(reports[0].value, 1);
    assert_eq!(reports[1].value, 1);
    assert_eq!(reports[2].value, 1);
    assert_eq!(observable.subscriber_count(), 3);
}

#[test]
fn dropped_observer_is_pruned_and_skipped() {
    let mut arena = ObserverArena::new();
    let mut observable = TestObservable::new();
    let (h1, h2, h3) = subscribe_three(&mut arena, &mut observable);
    observable.raise(&mut arena, &TestEventArgs::new(1));

    arena.release(h2);
    let reports = observable.raise(&mut arena, &TestEventArgs::new(5));

    assert_eq!(arena.value_of(h1), Some(6));
    assert_eq!(arena.value_of(h2), None);
    assert_eq!(arena.value_of(h3), Some(6));
    assert_eq!(reports.len(), 2);
    assert_eq!(reports[0].name, "Observer 1");
    assert_eq!(reports[1].name, "Observer 3");
    assert_eq!(reports[0].value, 6);
    assert_eq!(reports[1].value, 6);
    assert!(!observable.is_subscribed(h2));
    assert!(observable.is_subscribed(h1));
    assert!(observable.is_subscribed(h3));
    assert_eq!(observable.subscriber_count(), 2);
}

#[test]
fn unsubscribe_removes_all_matching_entries() {
    let mut arena = ObserverArena::new();
    let mut observable = TestObservable::new();
    let h1 = arena.insert(TestObserver::new("first".to_string()));
    let h2 = arena.insert(TestObserver::new("second".to_string()));
    observable.subscribe(h1);
    observable.subscribe(h2);
    observable.subscribe(h1);
    assert_eq!(observable.subscriber_count(), 3);

    observable.unsubscribe(h1);

    assert_eq!(observable.subscriber_count(), 1);
    assert!(!observable.is_subscribed(h1));
    assert!(observable.is_subscribed(h2));

    let reports = observable.raise(&mut arena, &TestEventArgs::new(7));
    assert_eq!(reports.len(), 1);
    assert_eq!(reports[0].name, "second");
    assert_eq!(arena.value_of(h1), Some(0));
    assert_eq!(arena.value_of(h2), Some(7));
}

#[test]
fn unsubscribe_twice_has_no_further_effect() {
    let mut arena = ObserverArena::new();
    let mut observable = TestObservable::new();
    let h1 = arena.insert(TestObserver::new("first".to_string()));
    let h2 = arena.insert(TestObserver::new("second".to_string()));
    observable.subscribe(h1);
    observable.subscribe(h2);

    observable.unsubscribe(h1);
    assert_eq!(observable.subscriber_count(), 1);
    observable.unsubscribe(h1);
    assert_eq!(observable.subscriber_count(), 1);
    assert!(observable.is_subscribed(h2));

    let reports = observable.raise(&mut arena, &TestEventArgs::new(2));
    assert_eq!(reports.len(), 1);
    assert_eq!(reports[0].name, "second");
}

#[test]
fn unsubscribe_of_unknown_handle_is_a_noop() {
    let mut arena = ObserverArena::new();
    let mut observable = TestObservable::new();
    let h1 = arena.insert(TestObserver::new("only".to_string()));
    observable.subscribe(h1);

    observable.unsubscribe(Handle { id: 17 });

    assert_eq!(observable.subscriber_count(), 1);
    assert!(observable.is_subscribed(h1));
}

#[test]
fn raise_on_empty_registry_reports_nothing() {
    let mut arena = ObserverArena::new();
    let mut observable = TestObservable::new();
    let reports = observable.raise(&mut arena, &TestEventArgs::new(3));
    assert_eq!(reports.len(), 0);
    assert_eq!(observable.subscriber_count(), 0);
}

#[test]
fn duplicate_subscription_delivers_twice() {
    let mut arena = ObserverArena::new();
    let mut observable = TestObservable::new();
    let h = arena.insert(TestObserver::new("twice".to_string()));
    observable.subscribe(h);
    observable.subscribe(h);

    let reports = observable.raise(&mut arena, &TestEventArgs::new(3));

    assert_eq!(arena.value_of(h), Some(6));
    assert_eq!(reports.len(), 2);
    assert_eq!(reports[0].value, 3);
    assert_eq!(reports[1].value, 6);
}

#[test]
fn negative_delta_accumulates() {
    let mut arena = ObserverArena::new();
    let mut observable = TestObservable::new();
    let h = arena.insert(TestObserver::new("down".to_string()));
    observable.subscribe(h);

    observable.raise(&mut arena, &TestEventArgs::new(-2));
    let reports = observable.raise(&mut arena, &TestEventArgs::new(-3));

    assert_eq!(arena.value_of(h), Some(-5));
    assert_eq!(reports.len(), 1);
    assert_eq!(reports[0].value, -5);
}

#[test]
fn subscribe_returns_the_same_handle() {
    let mut arena = ObserverArena::new();
    let mut observable = TestObservable::new();
    let h = arena.insert(TestObserver::new("same".to_string()));
    let w = observable.subscribe(h);
    assert_eq!(w, h);
    assert!(observable.is_subscribed(w));
}

#[test]
fn release_revokes_every_copy_of_the_handle() {
    let mut arena = ObserverArena::new();
    let h = arena.insert(TestObserver::new("gone".to_string()));
    let copy = h;
    assert!(arena.is_live(h));
    assert_eq!(arena.name_of(h).map(|n| n.clone()), Some("gone".to_string()));

    arena.release(h);

    assert!(!arena.is_live(h));
    assert!(!arena.is_live(copy));
    assert_eq!(arena.value_of(copy), None);
    assert_eq!(arena.name_of(copy), None);
}

#[test]
fn observer_update_accumulates_and_keeps_name() {
    let mut observer = TestObserver::new("unit".to_string());
    assert_eq!(observer.value(), 0);
    observer.update(&TestEventArgs::new(4));
    observer.update(&TestEventArgs::new(-1));
    assert_eq!(observer.value(), 3);
    assert_eq!(observer.name(), "unit");
}
