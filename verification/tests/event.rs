use bgpsim::bgp::BgpEvent;
use bgpsim::event::{BasicEventQueue, Event, EventQueue, FmtPriority};
use bgpsim::types::{Prefix, RouterId};

fn ev(dst: u32, p: u32) -> Event<()> {
    Event::Bgp((), RouterId(0), RouterId(dst), BgpEvent::Withdraw(Prefix(p)))
}

#[test]
fn queue_is_first_in_first_out() {
    let mut q = BasicEventQueue::new();
    assert!(q.is_empty());
    assert!(q.pop().is_none());
    q.push(ev(1, 10));
    q.push(ev(2, 20));
    q.push(ev(3, 30));
    assert_eq!(q.len(), 3);
    assert_eq!(q.peek().map(|e| e.router()), Some(RouterId(1)));
    assert_eq!(q.pop().map(|e| e.prefix()), Some(Some(Prefix(10))));
    assert_eq!(q.pop().map(|e| e.router()), Some(RouterId(2)));
    q.push(ev(4, 40));
    assert_eq!(q.pop().map(|e| e.router()), Some(RouterId(3)));
    assert_eq!(q.pop().map(|e| e.router()), Some(RouterId(4)));
    assert!(q.pop().is_none());
    q.push(ev(5, 50));
    q.clear();
    assert_eq!(q.len(), 0);
}

#[test]
fn event_accessors() {
    let e = Event::Bgp(7usize, RouterId(1), RouterId(2), BgpEvent::Withdraw(Prefix(3)));
    assert_eq!(*e.priority(), 7);
    assert!(e.is_bgp_event());
    assert_eq!(e.router(), RouterId(2));
    assert_eq!(e.prefix(), Some(Prefix(3)));
}

#[test]
fn priorities_as_text() {
    assert_eq!(FmtPriority::fmt(&42usize), "(priority: 42)");
    assert_eq!(FmtPriority::fmt(&0usize), "(priority: 0)");
    assert_eq!(FmtPriority::fmt(&()), "");
}
