use voidui::ui::state::{Invalidated, Signal, Subscribers, Subscription, UpdateQueue};

fn deliver(effect: Invalidated, queue: &mut UpdateQueue) -> bool {
    match effect {
        Invalidated::Enqueue { id, context } => queue.enqueue(id, context),
        _ => false,
    }
}

#[test]
fn context_changes_promote_already_dirty_readers_into_the_current_wave() {
    let mut queue = UpdateQueue::new();
    let id: u64 = 1;
    let mut signal = Signal::component(id);
    let effect = signal.invalidate(false);
    deliver(effect, &mut queue);
    assert_eq!(&queue.pending, &[id]);
    let effect = signal.invalidate(true);
    deliver(effect, &mut queue);
    assert_eq!(&queue.contexts, &[id]);
}

#[test]
fn ordinary_changes_queue_a_reader_once_and_wake_once() {
    let mut queue = UpdateQueue::new();
    let mut signal = Signal::component(7);
    assert!(deliver(signal.invalidate(false), &mut queue));
    assert_eq!(signal.invalidate(false), Invalidated::Ignored);
    assert_eq!(queue.pending, vec![7]);
    signal.begin_render();
    assert!(!signal.dirty);
    assert_eq!(signal.epoch, 1);
    assert!(!deliver(signal.invalidate(false), &mut queue));
    assert_eq!(queue.pending, vec![7, 7]);
}

#[test]
fn unmounted_and_widget_signals() {
    let mut signal = Signal::component(3);
    signal.mounted = false;
    assert_eq!(signal.invalidate(true), Invalidated::Ignored);
    assert!(!signal.dirty);
    let mut widget = Signal::widget();
    assert_eq!(widget.invalidate(false), Invalidated::Repaint);
    assert_eq!(widget.invalidate(false), Invalidated::Repaint);
}

#[test]
fn readers_that_rendered_again_are_dropped_on_notify() {
    let mut signals = vec![Some(Signal::component(10)), Some(Signal::component(11)), Some(Signal::widget())];
    let mut subs = Subscribers::new();
    subs.track(None, &signals);
    assert!(matches!(subs, Subscribers::Empty));
    subs.track(Some(0), &signals);
    subs.track(Some(1), &signals);
    subs.subscribe(2, &signals);
    subs.subscribe(1, &signals);
    match &subs {
        Subscribers::Many(v) => assert_eq!(v.len(), 3),
        _ => panic!("three readers need a table"),
    }
    assert!(subs.is_active(&signals));
    // Reader 1 renders again and no longer reads the value.
    signals[1].as_mut().unwrap().begin_render();
    // Reader 2 is gone.
    signals[2] = None;
    let effects = subs.notify(&mut signals);
    assert_eq!(effects, vec![Invalidated::Enqueue { id: 10, context: false }]);
    match &subs {
        Subscribers::One(s) => assert_eq!(*s, Subscription { signal: 0, epoch: 0 }),
        _ => panic!("one reader is left"),
    }
    assert!(signals[0].unwrap().dirty);
    signals[0].as_mut().unwrap().begin_render();
    let effects = subs.notify_context(&mut signals);
    assert!(effects.is_empty());
    assert!(matches!(subs, Subscribers::Empty));
    assert!(!subs.is_active(&signals));
}

#[test]
fn resubscribing_replaces_a_single_inactive_reader() {
    let mut signals = vec![Some(Signal::component(1)), Some(Signal::component(2))];
    let mut subs = Subscribers::new();
    subs.subscribe(0, &signals);
    signals[0] = None;
    subs.subscribe(1, &signals);
    match &subs {
        Subscribers::One(s) => assert_eq!(s.signal, 1),
        _ => panic!("the inactive reader is replaced"),
    }
    signals[1].as_mut().unwrap().begin_render();
    subs.subscribe(1, &signals);
    match &subs {
        Subscribers::One(s) => assert_eq!(*s, Subscription { signal: 1, epoch: 1 }),
        _ => panic!("the same reader is refreshed"),
    }
}
