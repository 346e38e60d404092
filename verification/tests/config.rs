use bgpsim::config::{Config, ConfigError, ConfigExpr, ConfigExprKey, ConfigModifier, ConfigPatch};
use bgpsim::route_map::{RouteMap, RouteMapDirection, RouteMapSet, RouteMapState};
use bgpsim::types::{BgpSessionType, Prefix, RouterId};

fn session(source: u32, target: u32, ty: BgpSessionType) -> ConfigExpr {
    ConfigExpr::BgpSession { source: RouterId(source), target: RouterId(target), session_type: ty }
}

fn link_weight(source: u32, target: u32, weight: u64) -> ConfigExpr {
    ConfigExpr::IgpLinkWeight { source: RouterId(source), target: RouterId(target), weight }
}

fn static_route(router: u32, prefix: u32, target: u32) -> ConfigExpr {
    ConfigExpr::StaticRoute { router: RouterId(router), prefix: Prefix(prefix), target: RouterId(target) }
}

fn route_map(router: u32, order: i16, lp: u32) -> ConfigExpr {
    ConfigExpr::BgpRouteMap {
        router: RouterId(router),
        direction: RouteMapDirection::Incoming,
        map: RouteMap { order, state: RouteMapState::Allow, conds: vec![], set: vec![RouteMapSet::LocalPref(Some(lp))] },
    }
}

#[test]
fn test_config_diff() {
    let mut c1 = Config::new();
    let mut c2 = Config::new();

    // add the same bgp expression
    let sess1 = session(0, 1, BgpSessionType::IBgpPeer);
    c1.add(sess1.clone()).unwrap();
    c2.add(sess1).unwrap();

    // add one only to c1
    let sess2 = session(0, 2, BgpSessionType::IBgpPeer);
    c1.add(sess2.clone()).unwrap();

    // add one only to c2
    let sess3 = session(0, 3, BgpSessionType::IBgpPeer);
    c2.add(sess3.clone()).unwrap();

    // add one to both, but differently
    let sess4a = session(0, 4, BgpSessionType::IBgpPeer);
    let sess4b = session(0, 4, BgpSessionType::IBgpClient);
    c1.add(sess4a.clone()).unwrap();
    c2.add(sess4b.clone()).unwrap();

    let patch = c1.get_diff(&c2);
    let expected_patch = [
        ConfigModifier::Insert(sess3),
        ConfigModifier::Remove(sess2),
        ConfigModifier::Update { from: sess4a, to: sess4b },
    ];

    assert_eq!(patch.modifiers.len(), 3);
    for modifier in patch.modifiers.iter() {
        assert!(expected_patch.contains(modifier));
    }

    c1.apply_patch(&patch).unwrap();
    assert_eq!(c1, c2);
}

#[test]
fn test_config_undo_wrong_patch() {
    let mut c = Config::new();

    c.add(link_weight(0, 1, 1)).unwrap();
    c.add(link_weight(1, 0, 1)).unwrap();

    let c_before = c.clone();

    // first, check if a correct patch produces something different
    let mut patch = ConfigPatch::new();
    patch.add(ConfigModifier::Update { from: link_weight(0, 1, 1), to: link_weight(0, 1, 2) });
    patch.add(ConfigModifier::Update { from: link_weight(1, 0, 1), to: link_weight(1, 0, 2) });

    c.apply_patch(&patch).unwrap();
    assert_ne!(c, c_before);

    // then, check if an incorrect patch produces does not change the config
    let mut c = c_before.clone();
    patch.add(ConfigModifier::Update { from: link_weight(0, 2, 1), to: link_weight(0, 2, 2) });

    let err = c.apply_patch(&patch).unwrap_err();
    assert_eq!(
        err,
        ConfigError::ConfigModifierError(ConfigModifier::Update { from: link_weight(0, 2, 1), to: link_weight(0, 2, 2) })
    );
    assert_eq!(c, c_before);
}

#[test]
fn config_unique() {
    let mut c = Config::new();

    // unique static route
    c.add(static_route(0, 0, 1)).unwrap();
    c.add(static_route(0, 1, 1)).unwrap();
    c.add(static_route(1, 1, 0)).unwrap();
    c.add(static_route(0, 0, 2)).unwrap_err();

    // unique IGP link weight
    c.add(link_weight(0, 1, 1)).unwrap();
    c.add(link_weight(1, 0, 1)).unwrap();
    c.add(link_weight(0, 1, 2)).unwrap_err();

    // unique BGP Session
    c.add(session(0, 1, BgpSessionType::IBgpPeer)).unwrap();
    c.add(session(0, 2, BgpSessionType::IBgpPeer)).unwrap();
    c.add(session(1, 0, BgpSessionType::IBgpPeer)).unwrap_err();
    c.add(session(0, 1, BgpSessionType::IBgpClient)).unwrap_err();

    // unique BGP route-map item
    c.add(route_map(0, 10, 200)).unwrap();
    c.add(route_map(0, 11, 200)).unwrap();
    c.add(route_map(1, 10, 200)).unwrap();
    assert_eq!(c.add(route_map(0, 10, 100)), Err(ConfigError::ConfigExprOverload));
}

#[test]
fn config_add_remove() {
    {
        // unique static route
        let mut c = Config::new();
        c.add(static_route(0, 0, 1)).unwrap();
        c.apply_modifier(&ConfigModifier::Remove(static_route(0, 0, 1))).unwrap();
        assert_eq!(c.len(), 0);

        c.add(static_route(0, 0, 1)).unwrap();
        c.apply_modifier(&ConfigModifier::Remove(static_route(0, 0, 2))).unwrap_err();
        assert_eq!(c.len(), 1);
        c.apply_modifier(&ConfigModifier::Remove(static_route(0, 0, 1))).unwrap();
        assert_eq!(c.len(), 0);

        c.add(static_route(0, 0, 1)).unwrap();
        c.apply_modifier(&ConfigModifier::Remove(static_route(0, 1, 1))).unwrap_err();
        assert_eq!(c.len(), 1);
    }

    {
        // unique IGP link weight
        let mut c = Config::new();
        c.add(link_weight(0, 1, 1)).unwrap();
        c.apply_modifier(&ConfigModifier::Remove(link_weight(0, 1, 1))).unwrap();
        assert_eq!(c.len(), 0);

        c.add(link_weight(0, 1, 1)).unwrap();
        c.apply_modifier(&ConfigModifier::Remove(link_weight(0, 1, 2))).unwrap_err();
        assert_eq!(c.len(), 1);
        c.apply_modifier(&ConfigModifier::Remove(link_weight(0, 1, 1))).unwrap();
        assert_eq!(c.len(), 0);

        c.add(link_weight(0, 1, 1)).unwrap();
        c.apply_modifier(&ConfigModifier::Remove(link_weight(1, 0, 1))).unwrap_err();
        assert_eq!(c.len(), 1);
    }

    {
        // unique Bgp Sessions
        let mut c = Config::new();
        c.add(session(0, 1, BgpSessionType::IBgpPeer)).unwrap();
        c.apply_modifier(&ConfigModifier::Remove(session(0, 1, BgpSessionType::IBgpPeer))).unwrap();
        assert_eq!(c.len(), 0);

        c.add(session(0, 1, BgpSessionType::IBgpPeer)).unwrap();
        c.apply_modifier(&ConfigModifier::Remove(session(0, 1, BgpSessionType::IBgpPeer))).unwrap();
        assert_eq!(c.len(), 0);

        c.add(session(0, 1, BgpSessionType::IBgpPeer)).unwrap();
        c.apply_modifier(&ConfigModifier::Remove(session(0, 2, BgpSessionType::IBgpPeer))).unwrap_err();
        assert_eq!(c.len(), 1);
    }

    {
        // unique BGP route-map item
        let mut c = Config::new();
        c.add(route_map(0, 10, 200)).unwrap();
        c.apply_modifier(&ConfigModifier::Remove(route_map(0, 10, 200))).unwrap();
        assert_eq!(c.len(), 0);

        c.add(route_map(0, 10, 200)).unwrap();
        c.apply_modifier(&ConfigModifier::Remove(route_map(0, 10, 200))).unwrap();
        assert_eq!(c.len(), 0);

        c.add(route_map(0, 10, 200)).unwrap();
        c.apply_modifier(&ConfigModifier::Remove(route_map(0, 11, 100))).unwrap_err();
        assert_eq!(c.len(), 1);
    }
}

#[test]
fn diff_of_equal_configs_is_empty() {
    let mut c1 = Config::new();
    c1.add(link_weight(0, 1, 5)).unwrap();
    c1.add(static_route(2, 3, 4)).unwrap();
    let c2 = c1.clone();
    assert!(c1.get_diff(&c2).modifiers.is_empty());
    assert!(c1 == c2);
}

#[test]
fn diff_orders_removals_insertions_updates() {
    let mut a = Config::new();
    let mut b = Config::new();
    a.add(link_weight(0, 1, 1)).unwrap();
    a.add(static_route(0, 7, 1)).unwrap();
    b.add(link_weight(0, 1, 3)).unwrap();
    b.add(session(2, 3, BgpSessionType::EBgp)).unwrap();
    let patch = a.get_diff(&b);
    assert_eq!(
        patch.modifiers,
        vec![
            ConfigModifier::Remove(static_route(0, 7, 1)),
            ConfigModifier::Insert(session(2, 3, BgpSessionType::EBgp)),
            ConfigModifier::Update { from: link_weight(0, 1, 1), to: link_weight(0, 1, 3) },
        ]
    );
    a.apply_patch(&patch).unwrap();
    assert!(a == b);
    assert_eq!(a.len(), 2);
}

#[test]
fn modifier_then_reverse_restores() {
    let mut c = Config::new();
    c.add(link_weight(0, 1, 1)).unwrap();
    let before = c.clone();
    let mods = vec![
        ConfigModifier::Insert(static_route(1, 2, 3)),
        ConfigModifier::Remove(link_weight(0, 1, 1)),
        ConfigModifier::Update { from: link_weight(0, 1, 1), to: link_weight(0, 1, 9) },
    ];
    for m in mods {
        c.apply_modifier(&m).unwrap();
        assert!(c != before);
        c.apply_modifier(&m.reverse()).unwrap();
        assert!(c == before);
    }
}

#[test]
fn invalid_modifiers_leave_config_unchanged() {
    let mut c = Config::new();
    c.add(link_weight(0, 1, 1)).unwrap();
    let before = c.clone();
    // insert an existing key
    assert!(c.apply_modifier(&ConfigModifier::Insert(link_weight(0, 1, 4))).is_err());
    // update that changes the key
    assert!(c
        .apply_modifier(&ConfigModifier::Update { from: link_weight(0, 1, 1), to: link_weight(1, 0, 1) })
        .is_err());
    // update of a missing key
    assert!(c
        .apply_modifier(&ConfigModifier::Update { from: link_weight(5, 6, 1), to: link_weight(5, 6, 3) })
        .is_err());
    assert!(c == before);
}

#[test]
fn update_needs_only_the_key_of_from() {
    let mut c = Config::new();
    c.add(link_weight(0, 1, 1)).unwrap();
    c.add(link_weight(1, 2, 5)).unwrap();
    c.apply_modifier(&ConfigModifier::Update { from: link_weight(0, 1, 2), to: link_weight(0, 1, 3) }).unwrap();
    let mut expected = Config::new();
    expected.add(link_weight(0, 1, 3)).unwrap();
    expected.add(link_weight(1, 2, 5)).unwrap();
    assert!(c == expected);
}

#[test]
fn ibgp_peer_sessions_compare_in_either_direction() {
    let mut a = Config::new();
    let mut b = Config::new();
    a.add(session(0, 1, BgpSessionType::IBgpPeer)).unwrap();
    b.add(session(1, 0, BgpSessionType::IBgpPeer)).unwrap();
    assert!(a == b);
    let mut c = Config::new();
    let mut d = Config::new();
    c.add(session(0, 1, BgpSessionType::IBgpClient)).unwrap();
    d.add(session(1, 0, BgpSessionType::IBgpClient)).unwrap();
    assert!(c != d);
}

#[test]
fn get_normalizes_session_keys() {
    let mut c = Config::new();
    c.add(session(3, 1, BgpSessionType::EBgp)).unwrap();
    let key = ConfigExprKey::BgpSession { speaker_a: RouterId(3), speaker_b: RouterId(1) };
    assert_eq!(c.get(key).map(|e| e.clone()), Some(session(3, 1, BgpSessionType::EBgp)));
    let mut k = key;
    k.normalize();
    assert_eq!(k, ConfigExprKey::BgpSession { speaker_a: RouterId(1), speaker_b: RouterId(3) });
    assert_eq!(session(3, 1, BgpSessionType::EBgp).key(), k);
    assert!(c.get(ConfigExprKey::IgpLinkWeight { source: RouterId(3), target: RouterId(1) }).is_none());
    assert_eq!(session(3, 1, BgpSessionType::EBgp).routers(), vec![RouterId(3), RouterId(1)]);
    assert!(!c.is_empty());
    assert_eq!(c.iter().len(), 1);
}
