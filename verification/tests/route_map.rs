use bgpsim::route_map::{PrefixSet, RouteMap, RouteMapBuilder, RouteMapMatch, RouteMapSet, RouteMapState};
use bgpsim::types::{AsId, Prefix, RouterId};

#[test]
fn builder_collects_prefixes_in_one_condition() {
    let rm = RouteMapBuilder::new()
        .order(5)
        .allow()
        .match_community(3)
        .match_prefix(Prefix(1))
        .match_neighbor(RouterId(2))
        .match_prefix(Prefix(4))
        .match_prefix(Prefix(1))
        .set_local_pref(200)
        .reset_med()
        .build();
    assert_eq!(rm.order, 5);
    assert!(rm.state.is_allow());
    assert_eq!(rm.conds.len(), 3);
    match &rm.conds[1] {
        RouteMapMatch::Prefix(ps) => {
            assert_eq!(ps.len(), 2);
            assert_eq!(ps.get(0), Prefix(1));
            assert_eq!(ps.get(1), Prefix(4));
        }
        _ => panic!("expected the prefix condition"),
    }
    assert_eq!(rm.set, vec![RouteMapSet::LocalPref(Some(200)), RouteMapSet::Med(None)]);
}

#[test]
fn prefix_sets_ignore_order_when_compared() {
    let mut a = PrefixSet::new();
    let mut b = PrefixSet::new();
    assert!(a.insert(Prefix(1)));
    assert!(a.insert(Prefix(2)));
    assert!(!a.insert(Prefix(1)));
    assert!(b.insert(Prefix(2)));
    assert!(b.insert(Prefix(1)));
    assert!(a.same_prefixes(&b));
    assert!(a.contains(Prefix(2)));
    assert!(!a.contains(Prefix(3)));
    let x = RouteMap { order: 1, state: RouteMapState::Deny, conds: vec![RouteMapMatch::Prefix(a)], set: vec![] };
    let y = RouteMap { order: 1, state: RouteMapState::Deny, conds: vec![RouteMapMatch::Prefix(b)], set: vec![] };
    assert!(x == y);
    let z = RouteMapBuilder::new().order(1).deny().match_as_path_contains(AsId(4)).build();
    assert!(x != z);
    assert!(z.state.is_deny());
}
