use relvar::event_bus::{Event, EventBus, Subscription};

fn sub(s: &str, t: &str) -> Subscription {
    Subscription { subscriber_id: s.to_string(), event_type: t.to_string() }
}

fn ev(id: &str, t: &str, p: &str) -> Event {
    Event { event_id: id.to_string(), event_type: t.to_string(), payload: p.to_string() }
}

#[test]
fn test_event_bus_dispatch() {
    let subs = vec![sub("UserA", "LOGIN"), sub("UserB", "LOGIN"), sub("UserA", "LOGOUT")];
    let events = vec![ev("e1", "LOGIN", "IP: 192.168.1.1"), ev("e2", "PURCHASE", "Item: Apple")];
    let bus = EventBus::new(subs, events);
    let dispatches = bus.dispatch();
    assert_eq!(dispatches.len(), 2);
    let mut who: Vec<String> = dispatches.iter().map(|d| d.subscriber_id.clone()).collect();
    who.sort();
    assert_eq!(who, vec!["UserA", "UserB"]);
    assert!(dispatches.iter().all(|d| d.event_id == "e1" && d.payload == "IP: 192.168.1.1"));
}

#[test]
fn event_bus_duplicate_subscriptions_deliver_once() {
    let bus = EventBus::new(vec![sub("A", "X"), sub("A", "X")], vec![ev("e", "X", "p")]);
    assert_eq!(bus.dispatch().len(), 1);
}

#[test]
fn event_bus_no_subscribers_no_deliveries() {
    let bus = EventBus::new(vec![], vec![ev("e", "X", "p")]);
    assert!(bus.dispatch().is_empty());
}
