use bgpsim::bgp::BgpRoute;
use bgpsim::export::exabgp::{neighbor_cfg, route_text};
use bgpsim::export::{ExportError, LinkId, PrefixAddressor};
use bgpsim::types::{AsId, Prefix, RouterId};

fn route(p: u32, path: &[u32], med: Option<u32>, community: Option<u32>) -> BgpRoute {
    BgpRoute {
        prefix: Prefix(p),
        as_path: path.iter().map(|x| AsId(*x)).collect(),
        next_hop: RouterId(1),
        local_pref: None,
        med,
        community,
    }
}

#[test]
fn announce_routes() {
    let mut a = PrefixAddressor::new(200 << 24, 8, 16).unwrap();
    assert_eq!(
        route_text(&route(3, &[100, 200], None, None), &mut a).unwrap(),
        "announce route 200.0.0.0/16 next-hop self as-path [100, 200]"
    );
    assert_eq!(
        route_text(&route(4, &[100], Some(20), Some(7)), &mut a).unwrap(),
        "announce route 200.1.0.0/16 next-hop self as-path [100] metric 20 extended-community [65535:7]"
    );
    assert_eq!(
        route_text(&route(3, &[], None, Some(1)), &mut a).unwrap(),
        "announce route 200.0.0.0/16 next-hop self as-path [] extended-community [65535:1]"
    );
}

#[test]
fn announce_without_network_fails() {
    let mut a = PrefixAddressor::new(200 << 24, 16, 16).unwrap();
    route_text(&route(1, &[1], None, None), &mut a).unwrap();
    assert_eq!(route_text(&route(2, &[1], None, None), &mut a), Err(ExportError::NotEnoughAddresses));
}

#[test]
fn neighbor_session() {
    assert_eq!(
        neighbor_cfg((10 << 24) | 1, (20 << 24) | 5, (10 << 24) | 2, AsId(100)),
        "neighbor 10.0.0.1 {
    router-id 20.0.0.5;
    local-address 10.0.0.2;
    local-as 100;
    peer-as 65535;
    hold-time 180;
    family { ipv4 unicast; }
}"
    );
}

#[test]
fn link_ids_are_unordered() {
    assert_eq!(LinkId::new(RouterId(3), RouterId(1)), LinkId::new(RouterId(1), RouterId(3)));
    assert_eq!(LinkId::new(RouterId(3), RouterId(1)), LinkId(RouterId(1), RouterId(3)));
}

#[test]
fn prefix_keeps_its_network() {
    let mut a = PrefixAddressor::new(200 << 24, 8, 16).unwrap();
    let first = a.prefix(Prefix(7)).unwrap();
    let other = a.prefix(Prefix(8)).unwrap();
    assert_ne!(first, other);
    assert_eq!(a.prefix(Prefix(7)).unwrap(), first);
    assert_eq!(first, ((200 << 24), 16));
}
