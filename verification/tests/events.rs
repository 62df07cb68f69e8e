use opencontext_core::events::{
    create_event_bus, DocEvent, Event, EventBus, FolderEvent, SharedEventBus, MAX_SUBSCRIBERS,
};
use tokio::sync::broadcast::error::TryRecvError;

#[test]
fn test_event_bus() {
    let bus = EventBus::new();
    let mut rx = bus.subscribe();

    bus.emit_doc(DocEvent::Created { rel_path: "test/doc.md".to_string() });

    let event = rx.try_recv().unwrap();
    match event {
        Event::Doc(DocEvent::Created { rel_path }) => {
            assert_eq!(rel_path, "test/doc.md");
        }
        _ => panic!("Unexpected event type"),
    }
}

#[test]
fn every_subscriber_receives_every_event() {
    let bus = EventBus::with_capacity(8);
    assert_eq!(bus.subscriber_count(), 0);
    bus.emit_doc(DocEvent::Deleted { rel_path: "lost.md".to_string() });
    let mut first = bus.subscribe();
    let mut second = bus.subscribe();
    assert_eq!(bus.subscriber_count(), 2);
    bus.emit_folder(FolderEvent::Renamed {
        old_path: "a".to_string(),
        new_path: "b".to_string(),
        affected_docs: vec![("a/x.md".to_string(), "b/x.md".to_string())],
    });
    bus.emit_doc(DocEvent::Moved { old_path: "b/x.md".to_string(), new_path: "c/x.md".to_string() });
    for rx in [&mut first, &mut second] {
        match rx.try_recv().unwrap() {
            Event::Folder(FolderEvent::Renamed { old_path, new_path, affected_docs }) => {
                assert_eq!((old_path.as_str(), new_path.as_str()), ("a", "b"));
                assert_eq!(affected_docs.len(), 1);
            }
            _ => panic!("Unexpected event type"),
        }
        match rx.try_recv().unwrap() {
            Event::Doc(DocEvent::Moved { old_path, new_path }) => {
                assert_eq!((old_path.as_str(), new_path.as_str()), ("b/x.md", "c/x.md"));
            }
            _ => panic!("Unexpected event type"),
        }
        assert!(rx.try_recv().is_err());
    }
    drop(first);
    assert_eq!(bus.subscriber_count(), 1);
}

#[test]
fn slow_subscriber_lags_alone() {
    let bus = EventBus::with_capacity(2);
    let mut slow = bus.subscribe();
    for i in 0..5 {
        bus.emit_doc(DocEvent::Updated { rel_path: format!("d{}.md", i) });
    }
    let mut fresh = bus.subscribe();
    bus.emit_doc(DocEvent::Updated { rel_path: "last.md".to_string() });
    assert!(slow.try_recv().is_err());
    match fresh.try_recv().unwrap() {
        Event::Doc(DocEvent::Updated { rel_path }) => assert_eq!(rel_path, "last.md"),
        _ => panic!("Unexpected event type"),
    }
}

#[test]
fn shared_bus_and_default() {
    let shared = create_event_bus();
    let other = shared.clone();
    let mut rx = shared.subscribe();
    other.emit_folder(FolderEvent::Deleted { rel_path: "old".to_string(), removed_docs: vec!["old/a.md".to_string()] });
    match rx.try_recv().unwrap() {
        Event::Folder(FolderEvent::Deleted { rel_path, removed_docs }) => {
            assert_eq!(rel_path, "old");
            assert_eq!(removed_docs, vec!["old/a.md".to_string()]);
        }
        _ => panic!("Unexpected event type"),
    }
    let bus = EventBus::default();
    assert_eq!(bus.subscriber_count(), 0);
    bus.emit_folder(FolderEvent::Created { rel_path: "new".to_string() });
}

fn updated(rx: &mut tokio::sync::broadcast::Receiver<Event>) -> String {
    match rx.try_recv() {
        Ok(Event::Doc(DocEvent::Updated { rel_path })) => rel_path,
        _ => panic!("Unexpected event type"),
    }
}

#[test]
fn subscriber_is_buffered_up_to_capacity() {
    let bus = EventBus::with_capacity(4);
    let mut rx = bus.subscribe();
    for i in 0..4 {
        bus.emit_doc(DocEvent::Updated { rel_path: format!("d{}.md", i) });
    }
    for i in 0..4 {
        assert_eq!(updated(&mut rx), format!("d{}.md", i));
    }
    assert!(matches!(rx.try_recv(), Err(TryRecvError::Empty)));
    for i in 0..5 {
        bus.emit_doc(DocEvent::Updated { rel_path: format!("e{}.md", i) });
    }
    assert!(matches!(rx.try_recv(), Err(TryRecvError::Lagged(1))));
    for i in 1..5 {
        assert_eq!(updated(&mut rx), format!("e{}.md", i));
    }
    assert!(matches!(rx.try_recv(), Err(TryRecvError::Empty)));
}

#[test]
fn subscriber_count_follows_subscriptions() {
    let bus = EventBus::new();
    let mut alive = Vec::new();
    for n in 0..10usize {
        assert_eq!(bus.subscriber_count(), n);
        alive.push(bus.subscribe());
    }
    assert!(bus.subscriber_count() <= MAX_SUBSCRIBERS);
    alive.truncate(3);
    assert_eq!(bus.subscriber_count(), 3);
    alive.clear();
    assert_eq!(bus.subscriber_count(), 0);
}

#[test]
fn capacity_is_rounded_up_to_a_power_of_two() {
    for (asked, held) in [(1usize, 1usize), (2, 2), (3, 4), (5, 8), (6, 8), (7, 8), (9, 16)] {
        let bus = EventBus::with_capacity(asked);
        let mut rx = bus.subscribe();
        for i in 0..held {
            bus.emit_doc(DocEvent::Updated { rel_path: format!("d{}.md", i) });
        }
        for i in 0..held {
            assert_eq!(updated(&mut rx), format!("d{}.md", i));
        }
        for i in 0..held + 1 {
            bus.emit_doc(DocEvent::Updated { rel_path: format!("e{}.md", i) });
        }
        assert!(matches!(rx.try_recv(), Err(TryRecvError::Lagged(1))));
        assert_eq!(updated(&mut rx), "e1.md");
    }
}

#[test]
fn cloned_bus_is_the_same_bus() {
    let bus = EventBus::with_capacity(3);
    let copy = bus.clone();
    let mut rx = bus.subscribe();
    assert_eq!(copy.subscriber_count(), 1);
    copy.emit_doc(DocEvent::Updated { rel_path: "one.md".to_string() });
    bus.emit_doc(DocEvent::Updated { rel_path: "two.md".to_string() });
    assert_eq!(updated(&mut rx), "one.md");
    assert_eq!(updated(&mut rx), "two.md");
    let mut late = copy.subscribe();
    for i in 0..5 {
        bus.emit_doc(DocEvent::Updated { rel_path: format!("d{}.md", i) });
    }
    assert!(matches!(late.try_recv(), Err(TryRecvError::Lagged(1))));
    let shared: SharedEventBus = create_event_bus();
    assert_eq!(shared.subscriber_count(), 0);
}
