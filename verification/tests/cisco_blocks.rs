use bgpsim::bgp::BgpRoute;
use bgpsim::export::cisco::{bgp_cfg, bgp_cfg_neighbor, interface_cfg, ospf_cfg, CiscoCfgGen};
use bgpsim::export::{ExportError, PrefixAddressor};
use bgpsim::types::{AsId, BgpSessionType, Prefix, RouterId};

fn ip(a: u32, b: u32, c: u32, d: u32) -> u32 {
    (a << 24) | (b << 16) | (c << 8) | d
}

#[test]
fn ospf_block() {
    assert_eq!(ospf_cfg(ip(1, 2, 3, 4)), "!\nrouter ospf 10\n  router-id 1.2.3.4\nexit\n");
}

#[test]
fn interface_blocks() {
    assert_eq!(
        interface_cfg("eth0", ip(10, 0, 0, 1), 30, Some(10), Some(0), true),
        "!\ninterface eth0\n  no shutdown\n  ip address 10.0.0.1/30\n  ip ospf cost 10\n  ip router ospf 10 area 0\nexit\n"
    );
    assert_eq!(
        interface_cfg("eth1", ip(10, 0, 0, 5), 30, Some(65535), Some(2), false),
        "!\ninterface eth1\n  shutdown\n  ip address 10.0.0.5/30\n  ip ospf cost 65535\n  ip router ospf 10 area 2\nexit\n"
    );
    assert_eq!(
        interface_cfg("Loopback0", ip(20, 0, 0, 1), 32, None, None, true),
        "!\ninterface Loopback0\n  no shutdown\n  ip address 20.0.0.1/32\nexit\n"
    );
    assert_eq!(
        interface_cfg("Loopback0", ip(20, 0, 0, 1), 32, Some(1), None, false),
        "!\ninterface Loopback0\n  no shutdown\n  ip address 20.0.0.1/32\nexit\n"
    );
}

#[test]
fn bgp_block() {
    assert_eq!(
        bgp_cfg(ip(20, 0, 0, 1), AsId(65535), &[(ip(1, 0, 0, 0), 8), (ip(2, 0, 0, 0), 16)]),
        "!\nrouter bgp 65535\n  router-id 20.0.0.1\n  address-family ipv4 unicast\n    network 1.0.0.0/8\n    network 2.0.0.0/16\n  exit\nexit\n"
    );
    assert_eq!(
        bgp_cfg(ip(20, 0, 0, 1), AsId(3), &[]),
        "!\nrouter bgp 3\n  router-id 20.0.0.1\n  address-family ipv4 unicast\n    \n  exit\nexit\n"
    );
}

#[test]
fn neighbor_block() {
    assert_eq!(
        bgp_cfg_neighbor(AsId(65535), ip(20, 0, 0, 2), AsId(65535), "Loopback0", "neighbor-r2", BgpSessionType::IBgpClient),
        "!
router bgp 65535
  neighbor 20.0.0.2 remote-as 65535
    update-source Loopback0
    address-family ipv4 unicast
      weight 100
      route-map neighbor-r2-in in
      route-map neighbor-r2-out out
      route-reflector-client
    exit
  exit
exit
!
route-map neighbor-r2-in permit 65535
exit
!
route-map neighbor-r2-out permit 65535
exit
"
    );
    let peer = bgp_cfg_neighbor(AsId(1), ip(10, 0, 0, 2), AsId(2), "eth0", "n", BgpSessionType::IBgpPeer);
    assert!(peer.contains("\n      !\n"));
    let ebgp = bgp_cfg_neighbor(AsId(1), ip(10, 0, 0, 2), AsId(2), "eth0", "n", BgpSessionType::EBgp);
    assert!(ebgp.contains("\n      next-hop-self\n"));
}

fn route(p: u32, path: &[u32]) -> BgpRoute {
    BgpRoute {
        prefix: Prefix(p),
        as_path: path.iter().map(|x| AsId(*x)).collect(),
        next_hop: RouterId(9),
        local_pref: None,
        med: None,
        community: None,
    }
}

#[test]
fn advertise_and_withdraw_routes() {
    let mut addressor = PrefixAddressor::new(100 << 24, 8, 24).unwrap();
    let mut gen = CiscoCfgGen::new(RouterId(9), vec![String::from("eth0")]).unwrap();
    assert_eq!(gen.iface(0), Ok("eth0"));
    assert_eq!(gen.iface(1), Err(ExportError::NotEnoughInterfaces(RouterId(9))));

    let cfg = gen.advertise_route(AsId(100), &mut addressor, &route(0, &[100, 200, 300])).unwrap();
    assert_eq!(
        cfg,
        "!
interface Loopback1
  no shutdown
  ip address 100.0.0.1/24
exit
!
router bgp 100
  address-family ipv4 unicast
    network 100.0.0.0/24
  exit
exit
route-map neighbor-out permit 1
  match ip address 100.0.0.0/24
  set as-path prepend 200 300
exit
"
    );
    let cfg = gen.advertise_route(AsId(100), &mut addressor, &route(1, &[100])).unwrap();
    assert!(cfg.starts_with("!\ninterface Loopback2\n"));
    assert!(cfg.contains("network 100.0.1.0/24"));
    assert!(cfg.ends_with("  set as-path prepend \nexit\n"));

    // withdraw the first one
    let cfg = gen.withdraw_route(AsId(100), &mut addressor, Prefix(0)).unwrap();
    assert_eq!(
        cfg,
        "!
no interface Loopback1
router bgp 100
  address-family ipv4 unicast
    no network 100.0.0.0/24
  exit
exit
no route-map neighbor-out permit 1
"
    );
    assert_eq!(
        gen.withdraw_route(AsId(100), &mut addressor, Prefix(0)),
        Err(ExportError::WithdrawUnadvertisedRoute)
    );

    // the freed loopback is used again
    let cfg = gen.advertise_route(AsId(100), &mut addressor, &route(2, &[100, 5])).unwrap();
    assert!(cfg.starts_with("!\ninterface Loopback1\n"));
    assert!(cfg.contains("network 100.0.2.0/24"));

    // advertising an advertised prefix again moves it to a new loopback
    let cfg = gen.advertise_route(AsId(100), &mut addressor, &route(1, &[100, 6])).unwrap();
    assert!(cfg.starts_with("!\ninterface Loopback2\n"));
    assert!(cfg.contains("set as-path prepend 6\n"));
}

#[test]
fn advertise_without_addresses_fails() {
    let mut addressor = PrefixAddressor::new(100 << 24, 24, 24).unwrap();
    let mut gen = CiscoCfgGen::new(RouterId(1), vec![]).unwrap();
    gen.advertise_route(AsId(1), &mut addressor, &route(0, &[1])).unwrap();
    assert_eq!(
        gen.advertise_route(AsId(1), &mut addressor, &route(1, &[1])),
        Err(ExportError::NotEnoughAddresses)
    );
}
