use bgpsim::bgp::BgpRoute;
use bgpsim::event::Event;
use bgpsim::export::exabgp::{neighbor_cfg, ExaBgpCfgGen};
use bgpsim::export::{ExportError, PrefixAddressor};
use bgpsim::external_router::ExternalRouter;
use bgpsim::types::{AsId, Prefix, RouterId};

fn ip(a: u32, b: u32, c: u32, d: u32) -> u32 {
    (a << 24) | (b << 16) | (c << 8) | d
}

fn route(p: u32, path: &[u32]) -> BgpRoute {
    BgpRoute {
        prefix: Prefix(p),
        as_path: path.iter().map(|x| AsId(*x)).collect(),
        next_hop: RouterId(5),
        local_pref: None,
        med: None,
        community: None,
    }
}

fn generator() -> ExaBgpCfgGen {
    let mut r = ExternalRouter::new(String::from("e"), RouterId(5), AsId(100));
    let _: Vec<Event<()>> = r.establish_ebgp_session(RouterId(1)).unwrap();
    let _: Vec<Event<()>> = r.establish_ebgp_session(RouterId(0)).unwrap();
    let _: (BgpRoute, Vec<Event<()>>) = r.advertise_prefix(Prefix(0), vec![AsId(100), AsId(200)], None, None);
    ExaBgpCfgGen::new(&r, ip(1, 2, 3, 4))
}

const HEADER: &str = "#!/usr/bin/env python3\n\nimport sys\nimport time\n\n\n";
const NB: &str = "neighbor 10.0.0.1, neighbor 10.0.0.2";

#[test]
fn script_of_constant_routes() {
    let g = generator();
    let mut a = PrefixAddressor::new(100 << 24, 8, 24).unwrap();
    let script = g.generate_script(&[ip(10, 0, 0, 1), ip(10, 0, 0, 2)], &mut a).unwrap();
    let expected = format!(
        "{}sys.stdout.write(\"{} announce route 100.0.0.0/24 next-hop self as-path [100, 200]\\n\")\nsys.stdout.flush()\n\nwhile True:\n    time.sleep(10)\n",
        HEADER, NB
    );
    assert_eq!(script, expected);
}

#[test]
fn script_replays_changes_in_time_order() {
    let mut g = generator();
    let mut a = PrefixAddressor::new(100 << 24, 8, 24).unwrap();
    let addrs = [ip(10, 0, 0, 1), ip(10, 0, 0, 2)];
    g.step_time(1_500_000_000);
    let script = g.advertise_route(&addrs, &mut a, &route(1, &[100])).unwrap();
    let expected = format!(
        "{h}sys.stdout.write(\"{nb} announce route 100.0.0.0/24 next-hop self as-path [100, 200]\\n\")\nsys.stdout.flush()\n\nwhile True:\n    time.sleep(1.5)\n    sys.stdout.write(\"{nb} announce route 100.0.1.0/24 next-hop self as-path [100]\\n\")\n    sys.stdout.flush()\n    time.sleep(10)\n    sys.stdout.write('withdraw route 100.0.1.0/24\\n')\n    sys.stdout.flush()\n",
        h = HEADER,
        nb = NB
    );
    assert_eq!(script, expected);

    g.step_time(500_000_000);
    g.repeat_time(2_000_000_000);
    let script = g.withdraw_route(&addrs, &mut a, Prefix(0)).unwrap();
    let expected = format!(
        "{h}while True:\n    time.sleep(0)\n    sys.stdout.write(\"{nb} announce route 100.0.0.0/24 next-hop self as-path [100, 200]\\n\")\n    sys.stdout.flush()\n    time.sleep(1.5)\n    sys.stdout.write(\"{nb} announce route 100.0.1.0/24 next-hop self as-path [100]\\n\")\n    sys.stdout.flush()\n    time.sleep(0.5)\n    sys.stdout.write(\"{nb} withdraw route 100.0.0.0/24\\n\")\n    sys.stdout.flush()\n    time.sleep(2)\n    sys.stdout.write('withdraw route 100.0.1.0/24\\n')\n    sys.stdout.flush()\n",
        h = HEADER,
        nb = NB
    );
    assert_eq!(script, expected);
}

#[test]
fn script_fails_without_addresses() {
    let mut g = generator();
    let mut a = PrefixAddressor::new(100 << 24, 24, 24).unwrap();
    g.step_time(1);
    assert_eq!(
        g.advertise_route(&[ip(10, 0, 0, 1)], &mut a, &route(1, &[100])),
        Err(ExportError::NotEnoughAddresses)
    );
}

#[test]
fn sessions_of_all_neighbors() {
    let mut g = generator();
    let cfg = g.establish_ebgp_session(RouterId(3), &[ip(10, 0, 0, 1), ip(10, 0, 0, 2), ip(10, 0, 0, 3)], ip(5, 5, 5, 5));
    let expected = format!(
        "{}\n{}\n{}",
        neighbor_cfg(ip(10, 0, 0, 1), ip(5, 5, 5, 5), ip(1, 2, 3, 4), AsId(100)),
        neighbor_cfg(ip(10, 0, 0, 2), ip(5, 5, 5, 5), ip(1, 2, 3, 4), AsId(100)),
        neighbor_cfg(ip(10, 0, 0, 3), ip(5, 5, 5, 5), ip(1, 2, 3, 4), AsId(100))
    );
    assert_eq!(cfg, expected);
    assert!(cfg.starts_with("neighbor 10.0.0.1 {\n    router-id 5.5.5.5;\n    local-address 1.2.3.4;\n    local-as 100;\n"));
}
