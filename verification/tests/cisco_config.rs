use bgpsim::bgp::BgpRoute;
use bgpsim::export::cisco::{bgp_cfg, bgp_cfg_neighbor, bgp_rm_item, interface_cfg, ospf_cfg, CiscoCfgGen};
use bgpsim::export::cisco_config::{ExtNeighborSpec, IfaceSpec, NeighborSpec, RouteMapSpec};
use bgpsim::export::{ExportError, PrefixAddressor};
use bgpsim::route_map::{RouteMapBuilder, RouteMapDirection};
use bgpsim::types::{AsId, BgpSessionType, Prefix, RouterId};

fn ip(a: u32, b: u32, c: u32, d: u32) -> u32 {
    (a << 24) | (b << 16) | (c << 8) | d
}

fn gen() -> CiscoCfgGen {
    CiscoCfgGen::new(RouterId(1), vec![String::from("eth0"), String::from("eth1")]).unwrap()
}

fn ifaces() -> Vec<IfaceSpec> {
    vec![
        IfaceSpec { ip: ip(10, 0, 0, 1), prefix_len: 30, iface_idx: 1, weight: 10, ospf_area: Some(3) },
        IfaceSpec { ip: ip(10, 0, 0, 5), prefix_len: 30, iface_idx: 0, weight: 70000, ospf_area: Some(1) },
        IfaceSpec { ip: ip(10, 0, 0, 9), prefix_len: 30, iface_idx: 0, weight: 5, ospf_area: None },
    ]
}

fn sessions() -> Vec<NeighborSpec> {
    vec![
        NeighborSpec {
            name: String::from("r2"),
            rm_name: String::from("neighbor-r2"),
            address: ip(20, 0, 0, 2),
            external: None,
            session_type: BgpSessionType::IBgpClient,
        },
        NeighborSpec {
            name: String::from("e1"),
            rm_name: String::from("neighbor-e1"),
            address: ip(10, 0, 0, 10),
            external: Some((AsId(100), 0)),
            session_type: BgpSessionType::EBgp,
        },
    ]
}

fn maps() -> Vec<RouteMapSpec> {
    vec![RouteMapSpec {
        name: String::from("neighbor-e1"),
        direction: RouteMapDirection::Incoming,
        items: vec![
            RouteMapBuilder::new().allow().order(10).match_prefix(Prefix(7)).build(),
            RouteMapBuilder::new().deny().order(20).match_community(5).build(),
        ],
    }]
}

#[test]
fn internal_config_assembles_all_blocks() {
    let g = gen();
    let mut addressor = PrefixAddressor::new(100 << 24, 8, 24).unwrap();
    let cfg = g
        .internal_config(ip(20, 0, 0, 1), &ifaces(), (ip(20, 0, 0, 1), 32), (ip(20, 0, 0, 0), 8), &sessions(), &maps(), &mut addressor)
        .unwrap();

    let mut rm_addressor = PrefixAddressor::new(100 << 24, 8, 24).unwrap();
    let items = &maps()[0].items;
    let mut expected = String::from("!\nfeature bgp\nfeature ospf\n!\n! Interfaces\n");
    expected.push_str(&interface_cfg("eth1", ip(10, 0, 0, 1), 30, Some(10), Some(3), true));
    expected.push_str(&interface_cfg("eth0", ip(10, 0, 0, 5), 30, Some(70000), Some(1), false));
    expected.push_str(&interface_cfg("eth0", ip(10, 0, 0, 9), 30, None, None, true));
    expected.push_str(&interface_cfg("Loopback0", ip(20, 0, 0, 1), 32, Some(1), Some(1), true));
    expected.push_str("!\n! OSPF\n");
    expected.push_str(&ospf_cfg(ip(20, 0, 0, 1)));
    expected.push_str("!\n! BGP\n");
    expected.push_str(&bgp_cfg(ip(20, 0, 0, 1), AsId(65535), &[(ip(20, 0, 0, 0), 8)]));
    expected.push_str("!\n! neighbor r2\n");
    expected.push_str(&bgp_cfg_neighbor(AsId(65535), ip(20, 0, 0, 2), AsId(65535), "Loopback0", "neighbor-r2", BgpSessionType::IBgpClient));
    expected.push_str("!\n! neighbor e1\n");
    expected.push_str(&bgp_cfg_neighbor(AsId(65535), ip(10, 0, 0, 10), AsId(100), "eth0", "neighbor-e1", BgpSessionType::EBgp));
    expected.push_str("!\n! Route-Maps\n");
    expected.push_str(&bgp_rm_item(&mut rm_addressor, AsId(65535), "neighbor-e1", RouteMapDirection::Incoming, &items[0], None, 20).unwrap());
    expected.push_str(&bgp_rm_item(&mut rm_addressor, AsId(65535), "neighbor-e1", RouteMapDirection::Incoming, &items[1], None, i16::MAX).unwrap());
    assert_eq!(cfg, expected);

    // the first item continues at the second; the loopback carries the smallest area
    assert!(cfg.contains("\n  continue 32788\n"));
    assert!(cfg.contains("interface Loopback0\n  no shutdown\n  ip address 20.0.0.1/32\n  ip ospf cost 1\n  ip router ospf 10 area 1\n"));
    assert!(cfg.contains("ip prefix-list neighbor-e1-in-32778-pl seq 1 permit 100.0.0.0/24"));
}

#[test]
fn internal_config_errors() {
    let g = gen();
    let mut addressor = PrefixAddressor::new(100 << 24, 8, 24).unwrap();
    let mut bad = ifaces();
    bad[0].iface_idx = 2;
    assert_eq!(
        g.internal_config(1, &bad, (1, 32), (0, 8), &[], &[], &mut addressor),
        Err(ExportError::NotEnoughInterfaces(RouterId(1)))
    );
    let mut full = PrefixAddressor::new(100 << 24, 24, 24).unwrap();
    full.prefix(Prefix(99)).unwrap();
    assert_eq!(
        g.internal_config(1, &ifaces(), (1, 32), (0, 8), &sessions(), &maps(), &mut full),
        Err(ExportError::NotEnoughAddresses)
    );
}

fn route(p: u32, path: &[u32]) -> BgpRoute {
    BgpRoute {
        prefix: Prefix(p),
        as_path: path.iter().map(|x| AsId(*x)).collect(),
        next_hop: RouterId(1),
        local_pref: None,
        med: None,
        community: None,
    }
}

#[test]
fn external_config_assembles_all_blocks() {
    let mut g = gen();
    let mut addressor = PrefixAddressor::new(100 << 24, 8, 24).unwrap();
    let neighbors = vec![ExtNeighborSpec { name: String::from("r0"), address: ip(10, 0, 0, 2), iface_idx: 1 }];
    let routes = vec![route(0, &[100, 200]), route(3, &[100])];
    let cfg = g
        .external_config(ip(30, 0, 0, 1), AsId(100), &ifaces()[0..1], (ip(30, 0, 0, 1), 32), (ip(30, 0, 0, 0), 24), &neighbors, &routes, &mut addressor)
        .unwrap();

    let mut other = gen();
    let mut other_addressor = PrefixAddressor::new(100 << 24, 8, 24).unwrap();
    let mut expected = String::from("!\nfeature bgp\n!\n! Interfaces\n");
    expected.push_str(&interface_cfg("eth1", ip(10, 0, 0, 1), 30, None, None, true));
    expected.push_str(&interface_cfg("Loopback0", ip(30, 0, 0, 1), 32, None, None, true));
    expected.push_str("!\n! BGP\n");
    expected.push_str(&bgp_cfg(ip(30, 0, 0, 1), AsId(100), &[(ip(30, 0, 0, 0), 24)]));
    expected.push_str("!\n! neighbor r0\n");
    expected.push_str(&bgp_cfg_neighbor(AsId(100), ip(10, 0, 0, 2), AsId(65535), "eth1", "neighbor", BgpSessionType::EBgp));
    expected.push_str("!\n! Create external advertisements\n");
    expected.push_str(&other.advertise_route(AsId(100), &mut other_addressor, &routes[0]).unwrap());
    expected.push_str(&other.advertise_route(AsId(100), &mut other_addressor, &routes[1]).unwrap());
    assert_eq!(cfg, expected);
    assert!(cfg.contains("!\ninterface Loopback2\n  no shutdown\n  ip address 100.0.1.1/24\nexit\n"));
    assert!(cfg.ends_with("  set as-path prepend \nexit\n"));
}

#[test]
fn external_config_errors() {
    let mut g = gen();
    let mut addressor = PrefixAddressor::new(100 << 24, 24, 24).unwrap();
    let neighbors = vec![ExtNeighborSpec { name: String::from("r0"), address: 1, iface_idx: 5 }];
    assert_eq!(
        g.external_config(1, AsId(1), &[], (1, 32), (0, 24), &neighbors, &[], &mut addressor),
        Err(ExportError::NotEnoughInterfaces(RouterId(1)))
    );
    let routes = vec![route(0, &[1]), route(1, &[1])];
    assert_eq!(
        g.external_config(1, AsId(1), &[], (1, 32), (0, 24), &[], &routes, &mut addressor),
        Err(ExportError::NotEnoughAddresses)
    );
}
