use bgpsim::bgp::{BgpEvent, BgpRoute};
use bgpsim::event::Event;
use bgpsim::external_router::ExternalRouter;
use bgpsim::types::{AsId, Prefix, RouterId, StepUpdate};

fn ext() -> ExternalRouter {
    ExternalRouter::new(String::from("ext"), RouterId(10), AsId(100))
}

fn routes(r: &ExternalRouter) -> Vec<(u32, Vec<u32>)> {
    let mut v: Vec<(u32, Vec<u32>)> =
        r.get_advertised_routes().iter().map(|x| (x.prefix.0, x.as_path.iter().map(|a| a.0).collect())).collect();
    v.sort();
    v
}

#[test]
fn getters() {
    let r = ext();
    assert_eq!(r.router_id(), RouterId(10));
    assert_eq!(r.as_id(), AsId(100));
    assert_eq!(r.name(), "ext");
    assert!(r.advertised_prefixes().is_empty());
}

#[test]
fn advertise_sends_updates_to_all_neighbors() {
    let mut r = ext();
    let evs: Vec<Event<()>> = r.establish_ebgp_session(RouterId(1)).unwrap();
    assert!(evs.is_empty());
    let _: Vec<Event<()>> = r.establish_ebgp_session(RouterId(2)).unwrap();
    let (route, evs): (BgpRoute, Vec<Event<()>>) =
        r.advertise_prefix(Prefix(5), vec![AsId(100), AsId(200)], Some(7), None);
    assert_eq!(route.next_hop, RouterId(10));
    assert_eq!(route.local_pref, None);
    assert_eq!(route.med, Some(7));
    assert_eq!(evs.len(), 2);
    let dsts: Vec<u32> = evs.iter().map(|e| e.router().0).collect();
    assert_eq!(dsts, vec![1, 2]);
    for e in evs.iter() {
        match e {
            Event::Bgp(_, src, _, BgpEvent::Update(x)) => {
                assert_eq!(*src, RouterId(10));
                assert_eq!(*x, route);
            }
            _ => panic!("expected an update"),
        }
    }
    // advertising the same route again sends nothing
    let (_, evs): (BgpRoute, Vec<Event<()>>) =
        r.advertise_prefix(Prefix(5), vec![AsId(100), AsId(200)], Some(7), None);
    assert!(evs.is_empty());
    assert!(r.has_active_route(Prefix(5)));
    assert_eq!(r.advertised_prefixes(), vec![Prefix(5)]);
}

#[test]
fn new_neighbor_gets_all_routes() {
    let mut r = ext();
    let _: (BgpRoute, Vec<Event<()>>) = r.advertise_prefix(Prefix(1), vec![AsId(100)], None, Some(3));
    let _: (BgpRoute, Vec<Event<()>>) = r.advertise_prefix(Prefix(2), vec![AsId(100)], None, None);
    let evs: Vec<Event<()>> = r.establish_ebgp_session(RouterId(4)).unwrap();
    assert_eq!(evs.len(), 2);
    for e in evs.iter() {
        assert_eq!(e.router(), RouterId(4));
    }
    let evs: Vec<Event<()>> = r.establish_ebgp_session(RouterId(4)).unwrap();
    assert!(evs.is_empty());
}

#[test]
fn withdraw_sends_withdraws() {
    let mut r = ext();
    let _: Vec<Event<()>> = r.establish_ebgp_session(RouterId(1)).unwrap();
    let evs: Vec<Event<()>> = r.widthdraw_prefix(Prefix(9));
    assert!(evs.is_empty());
    let _: (BgpRoute, Vec<Event<()>>) = r.advertise_prefix(Prefix(9), vec![AsId(100)], None, None);
    let evs: Vec<Event<()>> = r.widthdraw_prefix(Prefix(9));
    assert_eq!(evs.len(), 1);
    assert!(matches!(&evs[0], Event::Bgp(_, RouterId(10), RouterId(1), BgpEvent::Withdraw(Prefix(9)))));
    assert!(!r.has_active_route(Prefix(9)));
}

#[test]
fn undo_restores_each_step() {
    let mut r = ext();
    let mut other = ext();
    let _: Vec<Event<()>> = r.establish_ebgp_session(RouterId(1)).unwrap();
    let _: (BgpRoute, Vec<Event<()>>) = r.advertise_prefix(Prefix(1), vec![AsId(100)], None, None);
    let _: Vec<Event<()>> = other.establish_ebgp_session(RouterId(1)).unwrap();
    let _: (BgpRoute, Vec<Event<()>>) = other.advertise_prefix(Prefix(1), vec![AsId(100)], None, None);
    assert!(r.advertises_same_routes(&other));

    // replace the route, then undo
    let _: (BgpRoute, Vec<Event<()>>) = r.advertise_prefix(Prefix(1), vec![AsId(100), AsId(7)], None, None);
    assert!(!r.advertises_same_routes(&other));
    r.undo_event();
    assert!(r.advertises_same_routes(&other));
    assert_eq!(routes(&r), vec![(1, vec![100])]);

    // withdraw, then undo
    let _: Vec<Event<()>> = r.widthdraw_prefix(Prefix(1));
    assert!(routes(&r).is_empty());
    r.undo_event();
    assert_eq!(routes(&r), vec![(1, vec![100])]);

    // close a session, then undo: the neighbor gets updates again
    r.close_ebgp_session(RouterId(1)).unwrap();
    let (_, evs): (BgpRoute, Vec<Event<()>>) = r.advertise_prefix(Prefix(2), vec![AsId(100)], None, None);
    assert!(evs.is_empty());
    r.undo_event();
    r.undo_event();
    let (_, evs): (BgpRoute, Vec<Event<()>>) = r.advertise_prefix(Prefix(2), vec![AsId(100)], None, None);
    assert_eq!(evs.len(), 1);
    r.undo_event();

    // a new session, then undo
    let _: Vec<Event<()>> = r.establish_ebgp_session(RouterId(3)).unwrap();
    r.undo_event();
    let (_, evs): (BgpRoute, Vec<Event<()>>) = r.advertise_prefix(Prefix(3), vec![AsId(100)], None, None);
    assert_eq!(evs.len(), 1);
    r.undo_event();
    assert_eq!(routes(&r), vec![(1, vec![100])]);

    // events change nothing
    let (u, evs) = r.handle_event::<()>(Event::Bgp((), RouterId(1), RouterId(10), BgpEvent::Withdraw(Prefix(1)))).unwrap();
    assert_eq!(u, StepUpdate::Unchanged);
    assert!(evs.is_empty());
    r.undo_event();
    assert_eq!(routes(&r), vec![(1, vec![100])]);

    // undo with nothing left does nothing
    let mut fresh = ext();
    fresh.undo_event();
    assert!(routes(&fresh).is_empty());
}

#[test]
fn external_router_advertise_to_neighbors() {
    let mut r = ExternalRouter::new(String::from("router"), RouterId(0), AsId(65001));

    let events: Vec<Event<()>> = r.establish_ebgp_session(RouterId(1)).unwrap();
    assert!(events.is_empty());

    let (_, events): (BgpRoute, Vec<Event<()>>) = r.advertise_prefix(Prefix(0), vec![AsId(0)], None, None);
    assert_eq!(events.len(), 1);
    assert_eq!(
        events[0],
        Event::Bgp(
            (),
            RouterId(0),
            RouterId(1),
            BgpEvent::Update(BgpRoute {
                prefix: Prefix(0),
                as_path: vec![AsId(0)],
                next_hop: RouterId(0),
                local_pref: None,
                med: None,
                community: None,
            }),
        )
    );

    let events: Vec<Event<()>> = r.widthdraw_prefix(Prefix(0));
    assert_eq!(events.len(), 1);
    assert_eq!(events[0], Event::Bgp((), RouterId(0), RouterId(1), BgpEvent::Withdraw(Prefix(0))));
}

#[test]
fn external_router_new_neighbor() {
    let mut r = ExternalRouter::new(String::from("router"), RouterId(0), AsId(65001));

    let (_, events): (BgpRoute, Vec<Event<()>>) = r.advertise_prefix(Prefix(0), vec![AsId(0)], None, None);
    assert_eq!(events.len(), 0);

    let events: Vec<Event<()>> = r.establish_ebgp_session(RouterId(1)).unwrap();
    assert_eq!(events.len(), 1);
    assert_eq!(
        events[0],
        Event::Bgp(
            (),
            RouterId(0),
            RouterId(1),
            BgpEvent::Update(BgpRoute {
                prefix: Prefix(0),
                as_path: vec![AsId(0)],
                next_hop: RouterId(0),
                local_pref: None,
                med: None,
                community: None,
            }),
        )
    );

    r.close_ebgp_session(RouterId(1)).unwrap();

    let events: Vec<Event<()>> = r.widthdraw_prefix(Prefix(0));
    assert!(events.is_empty());
}
